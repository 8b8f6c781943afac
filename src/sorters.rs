//! A first, simpler form of the step-wise interface: one bubble sort over
//! `u32` whose `step` compares and exchanges in one go.
use vstd::prelude::*;

verus! {

/// `s` is in ascending order.
pub open spec fn sorted_u32(s: Seq<u32>) -> bool {
    forall|i: int, j: int| 0 <= i <= j < s.len() ==> s[i] <= s[j]
}

pub trait Sorter: Sized {
    /// The cursor is valid for a sequence of length `len`.
    spec fn valid(&self, len: nat) -> bool;

    fn new() -> (r: Self)
        ensures
            forall|len: nat| len >= 2 ==> r.valid(len),
    ;

    /// Moves the cursor to the next pair; returns true when every pass is done.
    fn modify_state(&mut self, len: usize) -> (done: bool)
        requires
            len >= 2,
            old(self).valid(len as nat),
        ensures
            !done ==> final(self).valid(len as nat),
    ;

    /// The pair under the cursor.
    fn get_state(&self) -> (usize, usize);

    /// Sorts `array` and resets the cursor.
    fn run(&mut self, array: &mut Vec<u32>)
        ensures
            sorted_u32(final(array)@),
            final(array)@.to_multiset() == old(array)@.to_multiset(),
    ;

    /// Exchanges the pair under the cursor if it is out of order.
    fn step(&self, array: &mut Vec<u32>)
        requires
            self.valid(old(array)@.len()),
        ensures
            final(array)@.to_multiset() == old(array)@.to_multiset(),
            final(array)@.len() == old(array)@.len(),
    ;

    /// Puts the cursor back to the start.
    fn reset(&mut self)
        ensures
            forall|len: nat| len >= 2 ==> final(self).valid(len),
    ;
}

/// Bubble sort whose pass `x` compares the pairs `(y, y + 1)` for `y` up to
/// `len - 2 - x`.
pub struct BubbleSort {
    pub x: usize,
    pub y: usize,
}

impl BubbleSort {
    /// The part of pass `x` done so far has carried the largest element of
    /// `a[..=y]` to `y`, and the last `x` elements are the largest, in order.
    pub open spec fn pass_inv(&self, a: Seq<u32>) -> bool {
        let n = a.len();
        &&& self.valid(n)
        &&& forall|i: int| 0 <= i <= self.y ==> #[trigger] a[i] <= a[self.y as int]
        &&& forall|i: int, j: int| 0 <= i <= j < n && j >= n - self.x ==> a[i] <= a[j]
    }
}

impl Sorter for BubbleSort {
    open spec fn valid(&self, len: nat) -> bool {
        self.x + 2 <= len && self.y + self.x + 2 <= len
    }

    fn new() -> (r: BubbleSort)
        ensures
            r.x == 0 && r.y == 0,
    {
        BubbleSort { x: 0, y: 0 }
    }

    fn modify_state(&mut self, len: usize) -> (done: bool)
        ensures
            old(self).y < len - 2 - old(self).x ==> final(self).x == old(self).x && final(self).y
                == old(self).y + 1,
            old(self).y >= len - 2 - old(self).x ==> final(self).x == old(self).x + 1
                && final(self).y == 0,
            done == (final(self).x == len - 1),
    {
        if self.y < len - 2 - self.x {
            self.y += 1;
        } else {
            self.x += 1;
            self.y = 0;
        }
        if self.x == len - 1 {
            return true;
        }
        false
    }

    fn run(&mut self, array: &mut Vec<u32>) {
        let len: usize = array.len();
        if len < 2 {
            self.reset();
            return;
        }
        self.reset();
        let ghost m = array@.to_multiset();
        loop
            invariant_except_break
                self.pass_inv(array@),
            invariant
                len == array@.len(),
                len >= 2,
                array@.to_multiset() == m,
            ensures
                sorted_u32(array@),
            decreases len - self.x, len - self.y,
        {
            let ghost a0 = array@;
            self.step(array);
            proof {
                let a = array@;
                assert forall|i: int| 0 <= i <= self.y + 1 implies #[trigger] a[i] <= a[self.y + 1] by {
                    if i < self.y {
                        assert(a0[i] <= a0[self.y as int]);
                    }
                }
                assert forall|i: int, j: int| 0 <= i <= j < len && j >= len - self.x implies a[i] <= a[j] by {
                    if i == self.y || i == self.y + 1 {
                        assert(a0[self.y as int] <= a0[j] && a0[self.y + 1] <= a0[j]);
                    }
                }
            }
            if self.modify_state(len) {
                proof {
                    let a = array@;
                    assert forall|i: int, j: int| 0 <= i <= j < a.len() implies a[i] <= a[j] by {
                        if j == 0 {
                        } else if j >= 2 {
                        }
                    }
                }
                break;
            }
        }
        self.reset();
    }

    fn step(&self, array: &mut Vec<u32>)
        ensures
            old(array)@[self.y as int] > old(array)@[self.y + 1] ==> final(array)@ == old(array)@.update(
                self.y as int,
                old(array)@[self.y + 1],
            ).update(self.y + 1, old(array)@[self.y as int]),
            old(array)@[self.y as int] <= old(array)@[self.y + 1] ==> final(array)@ == old(array)@,
    {
        let len = array.len();
        proof {
            assert(self.y + 1 < len);
            let a = array@;
            let s = a.update(self.y as int, a[self.y + 1]).update(self.y + 1, a[self.y as int]);
            vstd::seq_lib::to_multiset_update(a, self.y as int, a[self.y + 1]);
            vstd::seq_lib::to_multiset_update(
                a.update(self.y as int, a[self.y + 1]),
                self.y + 1,
                a[self.y as int],
            );
            broadcast use vstd::multiset::group_multiset_axioms;
            vstd::seq_lib::to_multiset_contains(a, a[self.y as int]);
            vstd::seq_lib::to_multiset_contains(a, a[self.y + 1]);
            let m = a.to_multiset();
            assert(a.contains(a[self.y as int]));
            assert(a.contains(a[self.y + 1]));
            assert(s.to_multiset() =~= m);
        }
        if array[self.y] > array[self.y + 1] {
            let t = array[self.y];
            let u = array[self.y + 1];
            array[self.y] = u;
            array[self.y + 1] = t;
        }
        assert(array@ =~= old(array)@ || array@ =~= old(array)@.update(
            self.y as int,
            old(array)@[self.y + 1],
        ).update(self.y + 1, old(array)@[self.y as int]));
    }

    fn get_state(&self) -> (r: (usize, usize))
        ensures
            r.0 == self.y,
            self.y < usize::MAX ==> r.1 == self.y + 1,
    {
        if self.y < usize::MAX {
            (self.y, self.y + 1)
        } else {
            (self.y, 0)
        }
    }

    fn reset(&mut self)
        ensures
            final(self).x == 0 && final(self).y == 0,
    {
        self.x = 0;
        self.y = 0;
    }
}

} // verus!
