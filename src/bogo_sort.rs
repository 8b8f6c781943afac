use vstd::prelude::*;
use vstd::multiset::Multiset;
use rand::seq::SliceRandom;
use crate::sorter::{pair_fits, sorted, sorted_between, Reasons, Sorter, NO_INDEX};

verus! {

/// Relies on rand's `SliceRandom::shuffle` over `thread_rng`: it reorders the
/// elements by exchanging them, so the elements and the length stay the same.
#[verifier::external_body]
fn shuffle(array: &mut Vec<usize>)
    ensures
        final(array)@.to_multiset() == old(array)@.to_multiset(),
        final(array)@.len() == old(array)@.len(),
{
    array.shuffle(&mut rand::thread_rng());
}

/// Bogo sort: checks the adjacent pairs from the left; at the first pair out
/// of order the whole sequence is shuffled and the check starts over.
///
/// While a shuffle has just happened, `special` reports no pair.
pub struct BogoSort {
    reason: Reasons,
    needs_shuffle: bool,
    shuffled: bool,
    curr: usize,
    x: usize,
    y: usize,
}

impl BogoSort {
    pub closed spec fn shuffle_pending(&self) -> bool {
        self.needs_shuffle
    }

    /// How many leading positions have been checked in order since the last
    /// shuffle (`curr`).
    pub closed spec fn checked(&self) -> usize {
        self.curr
    }

    /// The last step was a shuffle.
    pub closed spec fn after_shuffle(&self) -> bool {
        self.shuffled
    }

    /// What a checking step does: it is done when the length is at most one
    /// or every pair since the last shuffle has been checked; otherwise it
    /// reports the next pair, `(0, 1)` right after a shuffle, and makes a
    /// shuffle pending exactly when that pair is out of order.
    pub open spec fn compared(&self, next: &Self, a: Seq<usize>, done: bool) -> bool {
        let n = a.len() as int;
        &&& done == (n <= 1 || (!self.after_shuffle() && self.checked() == n))
        &&& done ==> *next == *self
        &&& !done ==> {
            &&& if self.after_shuffle() {
                next.special_spec() == (0usize, 1usize) && next.checked() == 2
            } else {
                next.special_spec() == ((self.checked() - 1) as usize, self.checked())
                    && next.checked() == self.checked() + 1
            }
            &&& !next.after_shuffle()
            &&& next.reason_spec() == Reasons::Comparing
            &&& next.shuffle_pending() == (a[next.special_spec().1 as int] < a[next.special_spec().0 as int])
        }
    }

    /// Checks the next adjacent pair; returns true when every pair has been
    /// found in order since the last shuffle.
    pub fn modify_state(&mut self, array: &[usize]) -> (done: bool)
        requires
            old(self).inv(array@),
            !old(self).shuffle_pending(),
        ensures
            done ==> sorted(array@),
            old(self).compared(&*final(self), array@, done),
            !done ==> final(self).inv(array@),
    {
        let len = array.len();
        if len <= 1 || (!self.shuffled && self.curr == len) {
            return true;
        }
        if self.shuffled {
            self.x = 0;
            self.y = 1;
            self.curr = 2;
        } else {
            self.x = self.curr - 1;
            self.y = self.curr;
            self.curr = self.curr + 1;
        }
        self.needs_shuffle = array[self.y] < array[self.x];
        self.reason = Reasons::Comparing;
        self.shuffled = false;
        false
    }

    /// Shuffles the whole sequence.
    pub fn switch(&mut self, array: &mut Vec<usize>)
        requires
            old(self).inv(old(array)@),
            old(self).shuffle_pending(),
        ensures
            final(array)@.to_multiset() == old(array)@.to_multiset(),
            final(array)@.len() == old(array)@.len(),
            final(self).inv(final(array)@),
            final(self).after_shuffle(),
            !final(self).shuffle_pending(),
            final(self).special_spec() == (NO_INDEX, NO_INDEX),
            final(self).reason_spec() == old(self).reason_spec(),
    {
        shuffle(array);
        self.shuffled = true;
        self.needs_shuffle = false;
        self.curr = 2;
    }
}

impl Sorter for BogoSort {
    closed spec fn is_fresh(&self) -> bool {
        *self == BogoSort {
            reason: Reasons::Comparing,
            needs_shuffle: false,
            shuffled: false,
            curr: 1,
            x: 0,
            y: 1,
        }
    }

    closed spec fn inv(&self, a: Seq<usize>) -> bool {
        let n = a.len();
        if self.shuffled {
            !self.needs_shuffle && n >= 2
        } else if self.curr == 1 || n <= 1 {
            self.curr == 1 && !self.needs_shuffle && self.x == 0 && self.y == 1
        } else {
            &&& 2 <= self.curr <= n
            &&& self.y == self.curr - 1
            &&& self.x + 1 == self.y
            &&& sorted_between(a, 0, self.curr - 1)
            &&& self.needs_shuffle ==> a[self.y as int] < a[self.x as int]
            &&& !self.needs_shuffle ==> a[self.x as int] <= a[self.y as int]
        }
    }

    closed spec fn contents(&self, a: Seq<usize>) -> Multiset<usize> {
        a.to_multiset()
    }

    closed spec fn special_spec(&self) -> (usize, usize) {
        if self.shuffled || self.curr == 1 {
            (NO_INDEX, NO_INDEX)
        } else {
            (self.x, self.y)
        }
    }

    open spec fn always_ends() -> bool {
        false
    }

    closed spec fn reason_spec(&self) -> Reasons {
        self.reason
    }

    proof fn lemma_fresh(&self, a: Seq<usize>) {
    }

    fn new() -> (r: Self) {
        BogoSort {
            reason: Reasons::Comparing,
            needs_shuffle: false,
            shuffled: false,
            curr: 1,
            x: 0,
            y: 1,
        }
    }

    fn special(&self) -> (r: (usize, usize)) {
        if self.shuffled {
            return (NO_INDEX, NO_INDEX);
        }
        if self.curr != 1 {
            return (self.x, self.y);
        }
        (NO_INDEX, NO_INDEX)
    }

    fn reason(&self) -> (r: Reasons) {
        self.reason
    }

    fn step(&mut self, array: &mut Vec<usize>) -> (done: bool)
        ensures
            done ==> sorted(final(array)@),
            done ==> final(array)@ == old(array)@,
            final(array)@.to_multiset() == old(array)@.to_multiset(),
            old(self).shuffle_pending() ==> !done && final(self).after_shuffle()
                && !final(self).shuffle_pending() && final(self).special_spec() == (
            NO_INDEX,
            NO_INDEX,
            ),
            !old(self).shuffle_pending() ==> final(array)@ == old(array)@ && old(self).compared(
                &*final(self),
                old(array)@,
                done,
            ),
    {
        if self.needs_shuffle {
            self.switch(array);
        } else {
            return self.modify_state(array.as_slice());
        }
        false
    }

    /// Steps until the sequence is found sorted. A run has no bound on its
    /// length; this one gives up after `u64::MAX` steps, which no run reaches
    /// in practice. When the steps end by themselves, the sequence is sorted.
    /// An input that is already sorted is checked pair by pair and comes
    /// back unchanged.
    fn run(&mut self, array: &mut Vec<usize>)
        ensures
            sorted(old(array)@) && old(self).is_fresh() ==> final(array)@ == old(array)@,
    {
        let ghost m = array@.to_multiset();
        let ghost a0 = array@;
        let ghost calm = sorted(a0) && self.is_fresh();
        let len = array.len();
        let mut budget: u64 = u64::MAX;
        proof {
            assert(usize::MAX <= u64::MAX) by {
                assert(usize::BITS == 32 || usize::BITS == 64);
            }
        }
        loop
            invariant_except_break
                self.inv(array@),
                calm ==> !self.shuffle_pending() && !self.after_shuffle(),
                calm && len >= 2 ==> 1 <= self.checked()
                    <= len && budget >= len - self.checked(),
            invariant
                array@.to_multiset() == m,
                len == array@.len(),
                calm ==> array@ == a0,
                calm == (sorted(a0) && old(self).is_fresh()),
                a0 == old(array)@,
            decreases budget,
        {
            if self.step(array) || budget == 0 {
                break;
            }
            budget = budget - 1;
        }
        self.reset_state();
    }

    fn reset_state(&mut self) {
        *self = BogoSort::new();
    }
}

} // verus!
