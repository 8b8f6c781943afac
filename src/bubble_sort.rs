use vstd::prelude::*;
use vstd::multiset::Multiset;
use crate::sorter::{
    at_most_one_swap, lex_lt, pair_fits, sorted, swap_elems, swapped, unchanged_or_swapped_at,
    Reasons, Sorter, NO_INDEX,
};

verus! {

/// How many elements of `s` are smaller than `v`.
pub open spec fn smaller_in(v: usize, s: Seq<usize>) -> nat
    decreases s.len(),
{
    if s.len() == 0 {
        0
    } else {
        (if s[0] < v { 1nat } else { 0nat }) + smaller_in(v, s.drop_first())
    }
}

/// The number of pairs `i < j` with `s[i] > s[j]`.
pub open spec fn inversions(s: Seq<usize>) -> nat
    decreases s.len(),
{
    if s.len() == 0 {
        0
    } else {
        smaller_in(s[0], s.drop_first()) + inversions(s.drop_first())
    }
}

/// `0 + 1 + ... + m`.
pub open spec fn tri(m: int) -> nat
    decreases m,
{
    if m <= 0 {
        0
    } else {
        (m + tri(m - 1)) as nat
    }
}

proof fn lemma_tri(n: int)
    requires
        n >= 1,
    ensures
        tri(n - 1) == n * (n - 1) / 2,
    decreases n,
{
    lemma_tri_double(n);
    let t = tri(n - 1) as int;
    let p = n * (n - 1);
    assert(p == 2 * t);
    assert(p / 2 == t);
}

proof fn lemma_tri_double(n: int)
    requires
        n >= 1,
    ensures
        2 * tri(n - 1) == n * (n - 1),
    decreases n,
{
    if n > 1 {
        lemma_tri_double(n - 1);
        assert(tri(n - 1) == (n - 1) + tri(n - 2));
        assert(2 * (n - 1) + (n - 1) * (n - 2) == n * (n - 1)) by (nonlinear_arith);
    } else {
        assert(tri(0) == 0);
    }
}

/// Exchanging two neighbours does not change how many elements are smaller
/// than `v`.
proof fn lemma_smaller_in_swap(v: usize, s: Seq<usize>, i: int)
    requires
        0 <= i,
        i + 1 < s.len(),
    ensures
        smaller_in(v, swapped(s, i, i + 1)) == smaller_in(v, s),
    decreases i,
{
    let t = swapped(s, i, i + 1);
    assert(smaller_in(v, t) == (if t[0] < v { 1nat } else { 0nat }) + smaller_in(v, t.drop_first()));
    assert(smaller_in(v, s) == (if s[0] < v { 1nat } else { 0nat }) + smaller_in(v, s.drop_first()));
    if i == 0 {
        let t1 = t.drop_first();
        let s1 = s.drop_first();
        assert(t1.drop_first() =~= s1.drop_first());
        assert(t1[0] == s[0]);
        assert(s1[0] == s[1]);
        assert(smaller_in(v, t1) == (if t1[0] < v { 1nat } else { 0nat }) + smaller_in(v, t1.drop_first()));
        assert(smaller_in(v, s1) == (if s1[0] < v { 1nat } else { 0nat }) + smaller_in(v, s1.drop_first()));
    } else {
        assert(t.drop_first() =~= swapped(s.drop_first(), i - 1, i));
        lemma_smaller_in_swap(v, s.drop_first(), i - 1);
    }
}

/// Exchanging a pair of neighbours out of order removes one inversion.
proof fn lemma_swap_inversions(s: Seq<usize>, i: int)
    requires
        0 <= i,
        i + 1 < s.len(),
        s[i] > s[i + 1],
    ensures
        inversions(swapped(s, i, i + 1)) + 1 == inversions(s),
    decreases i,
{
    let t = swapped(s, i, i + 1);
    assert(inversions(t) == smaller_in(t[0], t.drop_first()) + inversions(t.drop_first()));
    assert(inversions(s) == smaller_in(s[0], s.drop_first()) + inversions(s.drop_first()));
    if i == 0 {
        let t1 = t.drop_first();
        let s1 = s.drop_first();
        let rest = s1.drop_first();
        assert(t1.drop_first() =~= rest);
        assert(t1[0] == s[0]);
        assert(s1[0] == s[1]);
        assert(inversions(t1) == smaller_in(t1[0], rest) + inversions(rest));
        assert(inversions(s1) == smaller_in(s1[0], rest) + inversions(rest));
        assert(smaller_in(t[0], t1) == (if t1[0] < t[0] { 1nat } else { 0nat }) + smaller_in(t[0], rest));
        assert(smaller_in(s[0], s1) == (if s1[0] < s[0] { 1nat } else { 0nat }) + smaller_in(s[0], rest));
    } else {
        assert(t.drop_first() =~= swapped(s.drop_first(), i - 1, i));
        lemma_swap_inversions(s.drop_first(), i - 1);
        lemma_smaller_in_swap(s[0], s.drop_first(), i - 1);
    }
}

proof fn lemma_sorted_no_inversions(s: Seq<usize>)
    requires
        sorted(s),
    ensures
        inversions(s) == 0,
    decreases s.len(),
{
    if s.len() > 0 {
        lemma_sorted_no_inversions(s.drop_first());
        lemma_none_smaller(s[0], s.drop_first());
    }
}

proof fn lemma_none_smaller(v: usize, s: Seq<usize>)
    requires
        forall|k: int| 0 <= k < s.len() ==> v <= #[trigger] s[k],
    ensures
        smaller_in(v, s) == 0,
    decreases s.len(),
{
    if s.len() > 0 {
        lemma_none_smaller(v, s.drop_first());
    }
}

/// Bubble sort: pass `x` walks the pair `(y, y + 1)` from the left up to
/// the part that earlier passes have already sorted.
pub struct BubbleSort {
    x: usize,
    y: usize,
    needs_switch: bool,
    reason: Reasons,
}

impl BubbleSort {
    /// How far the run still has to go: passes left, pairs left in this pass,
    /// and whether a swap is pending.
    pub closed spec fn rank(&self, n: nat) -> (nat, nat, nat) {
        (
            (n - self.x) as nat,
            if self.y == NO_INDEX { 0 } else { (n - self.y) as nat },
            if self.needs_switch { 1 } else { 0 },
        )
    }

    pub closed spec fn switch_pending(&self) -> bool {
        self.needs_switch
    }

    /// The number of `step` calls left on `a`, the one that returns true
    /// included: one per comparison left, one per swap left (the inversions
    /// of `a`), and one.
    pub closed spec fn steps_left(&self, a: Seq<usize>) -> nat {
        let n = a.len() as int;
        let comparisons = if self.y == NO_INDEX {
            tri(n - 1)
        } else {
            ((n - 1 - self.x - self.y) + tri(n - 1 - self.x)) as nat
        };
        inversions(a) + comparisons + 1
    }

    /// The pass under way (`x`); pass `x` compares pairs up to
    /// `(len - 1 - x, len - x)`.
    pub closed spec fn pass(&self) -> usize {
        self.x
    }

    /// The left index of the pair last compared (`y`), `NO_INDEX` before the
    /// first comparison.
    pub closed spec fn cursor(&self) -> usize {
        self.y
    }

    /// What a comparison step does when no swap is pending: it is done when
    /// the length is at most one or the last pass is over; otherwise it moves
    /// to the next pair of the pass (or to the first pair of the next pass),
    /// reports it, and makes a swap pending when that pair is out of order.
    pub open spec fn compared(&self, next: &Self, a: Seq<usize>, done: bool) -> bool {
        let n = a.len() as int;
        &&& done == (n <= 1 || self.pass() == n - 1)
        &&& done ==> *next == *self
        &&& !done ==> {
            &&& if self.cursor() != NO_INDEX && self.cursor() < n - 1 - self.pass() {
                next.pass() == self.pass() && next.cursor() == self.cursor() + 1
            } else {
                next.pass() == self.pass() + 1 && next.cursor() == 0
            }
            &&& next.special_spec() == (next.cursor(), (next.cursor() + 1) as usize)
            &&& next.reason_spec() == Reasons::Comparing
            &&& next.switch_pending() == (a[next.cursor() as int] > a[next.cursor() + 1])
        }
    }

    /// What a swap step does: it exchanges the pair reported, shows
    /// `Switching`, and keeps the cursor.
    pub open spec fn switched(&self, next: &Self, a: Seq<usize>, b: Seq<usize>) -> bool {
        &&& b == swapped(a, self.special_spec().0 as int, self.special_spec().1 as int)
        &&& next.special_spec() == self.special_spec()
        &&& next.reason_spec() == Reasons::Switching
        &&& !next.switch_pending()
        &&& next.pass() == self.pass()
        &&& next.cursor() == self.cursor()
    }

    /// Moves to the next pair and compares it; returns true when the
    /// sequence is sorted.
    pub fn modify_state(&mut self, array: &[usize]) -> (done: bool)
        requires
            old(self).inv(array@),
            !old(self).switch_pending(),
        ensures
            done ==> sorted(array@) && *final(self) == *old(self),
            old(self).compared(&*final(self), array@, done),
            done ==> old(self).steps_left(array@) == 1,
            !done ==> final(self).steps_left(array@) + 1 == old(self).steps_left(array@),
            !done ==> final(self).inv(array@),
            !done ==> lex_lt(final(self).rank(array@.len()), old(self).rank(array@.len())),
            pair_fits(final(self).special_spec(), array@.len()) || done,
    {
        let len = array.len();
        if len <= 1 || self.x == len - 1 {
            proof {
                if len > 1 {
                    let a = array@;
                    assert forall|i: int, j: int| 0 <= i <= j < a.len() implies a[i] <= a[j] by {
                        if j >= 2 {
                        } else if j == 1 && i == 0 {
                        }
                    }
                }
            }
            proof {
                lemma_sorted_no_inversions(array@);
            }
            return true;
        }
        proof {
            let n = len as int;
            if self.y == NO_INDEX {
                assert(tri(n - 1) == (n - 1) + tri(n - 2));
            } else if self.y >= n - 1 - self.x {
                assert(tri(n - 1 - self.x) == (n - 1 - self.x) + tri(n - 2 - self.x));
            }
        }
        if self.y < len - 1 - self.x {
            self.y = self.y + 1;
        } else {
            self.x = self.x + 1;
            self.y = 0;
        }
        self.needs_switch = array[self.y] > array[self.y + 1];
        self.reason = Reasons::Comparing;
        false
    }

    /// Exchanges the pending pair.
    pub fn switch(&mut self, array: &mut Vec<usize>)
        requires
            old(self).inv(old(array)@),
            old(self).switch_pending(),
        ensures
            old(self).switched(&*final(self), old(array)@, final(array)@),
            final(self).steps_left(final(array)@) + 1 == old(self).steps_left(old(array)@),
            final(array)@.to_multiset() == old(array)@.to_multiset(),
            at_most_one_swap(old(array)@, final(array)@),
            final(self).inv(final(array)@),
            lex_lt(final(self).rank(final(array)@.len()), old(self).rank(old(array)@.len())),
            pair_fits(final(self).special_spec(), final(array)@.len()),
    {
        let ghost a = array@;
        proof {
            lemma_swap_inversions(a, self.y as int);
        }
        swap_elems(array, self.y, self.y + 1);
        self.reason = Reasons::Switching;
        self.needs_switch = false;
        proof {
            let b = array@;
            let n = a.len();
            assert forall|i: int, j: int|
                0 <= i <= j < n && j >= n - self.x + 1 implies b[i] <= b[j] by {
                if i == self.y {
                    assert(a[i + 1] <= a[j]);
                } else if i == self.y + 1 {
                    assert(a[i - 1] <= a[j]);
                }
            }
        }
    }
}

impl Sorter for BubbleSort {
    closed spec fn is_fresh(&self) -> bool {
        *self == BubbleSort { x: 0, y: NO_INDEX, needs_switch: false, reason: Reasons::Comparing }
    }

    closed spec fn inv(&self, a: Seq<usize>) -> bool {
        let n = a.len();
        if self.y == NO_INDEX {
            self.x == 0 && !self.needs_switch
        } else {
            &&& n >= 2
            &&& 1 <= self.x <= n - 1
            &&& self.y + self.x <= n - 1
            &&& forall|i: int, j: int|
                0 <= i <= j < n && j >= n - self.x + 1 ==> a[i] <= a[j]
            &&& self.needs_switch ==> a[self.y as int] > a[self.y + 1]
            &&& self.needs_switch ==> forall|i: int| 0 <= i <= self.y ==> #[trigger] a[i] <= a[self.y as int]
            &&& !self.needs_switch ==> forall|i: int| 0 <= i <= self.y + 1 ==> #[trigger] a[i] <= a[self.y + 1]
        }
    }

    closed spec fn contents(&self, a: Seq<usize>) -> Multiset<usize> {
        a.to_multiset()
    }

    closed spec fn special_spec(&self) -> (usize, usize) {
        if self.y != NO_INDEX {
            (self.y, (self.y + 1) as usize)
        } else {
            (NO_INDEX, NO_INDEX)
        }
    }

    open spec fn always_ends() -> bool {
        true
    }

    closed spec fn reason_spec(&self) -> Reasons {
        self.reason
    }

    proof fn lemma_fresh(&self, a: Seq<usize>) {
    }

    fn new() -> (r: Self)
        ensures
            r.pass() == 0,
            r.cursor() == NO_INDEX,
            !r.switch_pending(),
            r.special_spec() == (NO_INDEX, NO_INDEX),
    {
        BubbleSort { x: 0, y: NO_INDEX, needs_switch: false, reason: Reasons::Comparing }
    }

    fn special(&self) -> (r: (usize, usize)) {
        if self.y != NO_INDEX {
            (self.y, self.y + 1)
        } else {
            (NO_INDEX, NO_INDEX)
        }
    }

    fn reason(&self) -> (r: Reasons) {
        self.reason
    }

    fn step(&mut self, array: &mut Vec<usize>) -> (done: bool)
        ensures
            done ==> sorted(final(array)@),
            done ==> final(array)@ == old(array)@,
            done ==> old(self).steps_left(old(array)@) == 1,
            !done ==> final(self).steps_left(final(array)@) + 1 == old(self).steps_left(old(array)@),
            !done ==> lex_lt(final(self).rank(final(array)@.len()), old(self).rank(old(array)@.len())),
            at_most_one_swap(old(array)@, final(array)@),
            unchanged_or_swapped_at(
                old(array)@,
                final(array)@,
                final(self).special_spec(),
                final(self).reason_spec(),
            ),
            old(self).switch_pending() ==> !done && old(self).switched(
                &*final(self),
                old(array)@,
                final(array)@,
            ),
            !old(self).switch_pending() ==> final(array)@ == old(array)@ && old(self).compared(
                &*final(self),
                old(array)@,
                done,
            ),
    {
        if self.needs_switch {
            self.switch(array);
        } else {
            let done = self.modify_state(array.as_slice());
            if done {
                assert(pair_fits(self.special_spec(), array@.len())) by {
                    if self.y != NO_INDEX {
                        assert(self.y + self.x <= array@.len() - 1);
                    }
                }
            }
            return done;
        }
        false
    }

    fn run(&mut self, array: &mut Vec<usize>)
        ensures
            sorted(final(array)@),
    {
        let ghost m = array@.to_multiset();
        loop
            invariant_except_break
                self.inv(array@),
            invariant
                array@.to_multiset() == m,
            ensures
                sorted(array@),
            decreases self.rank(array@.len()).0, self.rank(array@.len()).1, self.rank(array@.len()).2,
        {
            if self.step(array) {
                break;
            }
        }
        self.reset_state();
    }

    fn reset_state(&mut self) {
        *self = BubbleSort::new();
    }
}

/// A new bubble sorter is on pass 0, has compared no pair and has no swap
/// pending.
pub proof fn lemma_fresh_start(s: BubbleSort)
    requires
        s.is_fresh(),
    ensures
        s.pass() == 0,
        s.cursor() == NO_INDEX,
        !s.switch_pending(),
        s.special_spec() == (NO_INDEX, NO_INDEX),
{
}

/// Stepping a new bubble sorter on `a` until a step returns true takes
/// `n * (n - 1) / 2 + inversions(a) + 1` calls of `step`: one per comparison,
/// one per swap (each swap removes one inversion), and the last one. Each
/// call that returns false lowers `steps_left` by one, and the call that
/// returns true is made when it is one.
pub proof fn lemma_bubble_step_count(s: BubbleSort, a: Seq<usize>)
    requires
        s.is_fresh(),
    ensures
        s.steps_left(a) == a.len() * (a.len() - 1) / 2 + inversions(a) + 1,
{
    if a.len() >= 1 {
        lemma_tri(a.len() as int);
    }
}

} // verus!
