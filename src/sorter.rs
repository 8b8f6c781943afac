use vstd::prelude::*;
use vstd::multiset::Multiset;
use vstd::seq_lib::to_multiset_update;

verus! {

/// Index value that stands for "no index".
pub const NO_INDEX: usize = usize::MAX;

/// Why the positions reported by `special` are highlighted.
#[derive(PartialEq, Eq, Structural, Clone, Copy, Debug)]
pub enum Reasons {
    Comparing,
    Switching,
    Limits,
}

/// The sequence is in ascending order.
pub open spec fn sorted(s: Seq<usize>) -> bool {
    forall|i: int, j: int| 0 <= i <= j < s.len() ==> s[i] <= s[j]
}

/// `a[lo..hi)` is in ascending order.
pub open spec fn sorted_between(a: Seq<usize>, lo: int, hi: int) -> bool {
    forall|i: int, j: int| lo <= i <= j < hi ==> a[i] <= a[j]
}

/// A pair of highlighted positions is either the "no pair" value or two
/// valid indices of a sequence of length `n`.
pub open spec fn pair_fits(p: (usize, usize), n: nat) -> bool {
    (p.0 == NO_INDEX && p.1 == NO_INDEX) || (p.0 < n && p.1 < n)
}

/// `s` with the elements at `i` and `j` exchanged.
pub open spec fn swapped(s: Seq<usize>, i: int, j: int) -> Seq<usize> {
    s.update(i, s[j]).update(j, s[i])
}

/// `b` is `a`, or `a` with one pair of positions exchanged.
pub open spec fn at_most_one_swap(a: Seq<usize>, b: Seq<usize>) -> bool {
    a == b || exists|i: int, j: int|
        0 <= i < a.len() && 0 <= j < a.len() && b == #[trigger] swapped(a, i, j)
}

pub proof fn lemma_swap_multiset(s: Seq<usize>, i: int, j: int)
    requires
        0 <= i < s.len(),
        0 <= j < s.len(),
    ensures
        swapped(s, i, j).to_multiset() == s.to_multiset(),
        swapped(s, i, j).len() == s.len(),
{
    broadcast use vstd::multiset::group_multiset_axioms;
    let s1 = s.update(i, s[j]);
    to_multiset_update(s, i, s[j]);
    to_multiset_update(s1, j, s[i]);
    if i == j {
        assert(swapped(s, i, j) =~= s);
    } else {
        assert(s1[j] == s[j]);
        let m = s.to_multiset();
        vstd::seq_lib::to_multiset_contains(s, s[i]);
        vstd::seq_lib::to_multiset_contains(s, s[j]);
        assert(s.contains(s[i]));
        assert(s.contains(s[j]));
        let m2 = m.insert(s[j]).remove(s[i]).insert(s[i]).remove(s[j]);
        assert forall|v: usize| #[trigger] m2.count(v) == m.count(v) by {}
        assert(m2 =~= m);
    }
}

/// Exchanges the elements at `i` and `j`.
pub fn swap_elems(a: &mut Vec<usize>, i: usize, j: usize)
    requires
        i < old(a)@.len(),
        j < old(a)@.len(),
    ensures
        final(a)@ == swapped(old(a)@, i as int, j as int),
        final(a)@.to_multiset() == old(a)@.to_multiset(),
        at_most_one_swap(old(a)@, final(a)@),
{
    proof {
        lemma_swap_multiset(a@, i as int, j as int);
    }
    let t = a[i];
    let u = a[j];
    a[i] = u;
    a[j] = t;
    assert(a@ =~= swapped(old(a)@, i as int, j as int));
}

/// A sorting algorithm split into single steps: each `step` either advances
/// the algorithm's cursors after one comparison, or performs the one write
/// that the previous comparison made pending.
pub trait Sorter: Sized {
    /// This is the state that `new` produces.
    spec fn is_fresh(&self) -> bool;

    /// The state is consistent with the sequence `a` that is being sorted.
    spec fn inv(&self, a: Seq<usize>) -> bool;

    /// The elements that the sort holds while `a` is being sorted: those of
    /// `a`, or, while an algorithm copies a buffer back, those of the buffer.
    spec fn contents(&self, a: Seq<usize>) -> Multiset<usize>;

    /// The pair of positions that `special` reports.
    spec fn special_spec(&self) -> (usize, usize);

    /// The reason that `reason` reports.
    spec fn reason_spec(&self) -> Reasons;

    /// Every run of steps ends by itself within a bound, so `run` always
    /// sorts. Only an algorithm that depends on chance lacks it.
    spec fn always_ends() -> bool;

    /// A fresh sorter can start on any sequence and holds its elements.
    proof fn lemma_fresh(&self, a: Seq<usize>)
        requires
            self.is_fresh(),
        ensures
            self.inv(a),
            self.contents(a) == a.to_multiset(),
            self.special_spec() == (NO_INDEX, NO_INDEX),
            self.reason_spec() == Reasons::Comparing,
    ;

    fn new() -> (r: Self)
        ensures
            r.is_fresh(),
    ;

    /// Returns the indexes currently being compared or about to switch.
    fn special(&self) -> (r: (usize, usize))
        ensures
            r == self.special_spec(),
    ;

    /// Returns the reason the special indexes are special.
    fn reason(&self) -> (r: Reasons)
        ensures
            r == self.reason_spec(),
    ;

    /// Takes a single step; returns true once the sequence is sorted.
    fn step(&mut self, array: &mut Vec<usize>) -> (done: bool)
        requires
            old(self).inv(old(array)@),
        ensures
            final(array)@.len() == old(array)@.len(),
            done ==> sorted(final(array)@),
            done ==> final(array)@.to_multiset() == old(self).contents(old(array)@),
            !done ==> final(self).inv(final(array)@),
            !done ==> final(self).contents(final(array)@) == old(self).contents(old(array)@),
            pair_fits(final(self).special_spec(), final(array)@.len()),
    ;

    /// Steps until the end, then resets the state.
    fn run(&mut self, array: &mut Vec<usize>)
        requires
            old(self).inv(old(array)@),
        ensures
            final(array)@.to_multiset() == old(self).contents(old(array)@),
            final(self).is_fresh(),
            Self::always_ends() ==> sorted(final(array)@),
    ;

    /// Sets the state back to the one that `new` produces.
    fn reset_state(&mut self)
        ensures
            final(self).is_fresh(),
    ;
}

} // verus!

verus! {

/// Lexicographic order on triples, used to show that a run of steps ends.
pub open spec fn lex_lt(a: (nat, nat, nat), b: (nat, nat, nat)) -> bool {
    a.0 < b.0 || (a.0 == b.0 && (a.1 < b.1 || (a.1 == b.1 && a.2 < b.2)))
}

} // verus!

verus! {

/// `b` is `a`, or `a` with one position overwritten.
pub open spec fn at_most_one_write(a: Seq<usize>, b: Seq<usize>) -> bool {
    a == b || exists|i: int| 0 <= i < a.len() && b == #[trigger] a.update(i, b[i])
}

/// Two sorted sequences with the same elements are equal. So every way of
/// sorting a sequence gives the same result: repeated `step`s until one
/// returns true leave the sequence as `run` leaves it.
pub proof fn lemma_sorted_permutation_unique(a: Seq<usize>, b: Seq<usize>)
    requires
        sorted(a),
        sorted(b),
        a.to_multiset() == b.to_multiset(),
    ensures
        a == b,
    decreases a.len(),
{
    broadcast use vstd::multiset::group_multiset_axioms;

    vstd::seq_lib::to_multiset_len(a);
    vstd::seq_lib::to_multiset_len(b);
    if a.len() == 0 {
        assert(a =~= b);
    } else {
        vstd::seq_lib::to_multiset_contains(a, b[0]);
        vstd::seq_lib::to_multiset_contains(b, a[0]);
        vstd::seq_lib::to_multiset_contains(a, a[0]);
        vstd::seq_lib::to_multiset_contains(b, b[0]);
        assert(a.contains(a[0]));
        assert(b.contains(b[0]));
        assert(a.contains(b[0]));
        assert(b.contains(a[0]));
        let ka = choose|k: int| 0 <= k < a.len() && a[k] == b[0];
        let kb = choose|k: int| 0 <= k < b.len() && b[k] == a[0];
        assert(a[0] <= a[ka]);
        assert(b[0] <= b[kb]);
        assert(a[0] == b[0]);
        vstd::seq_lib::to_multiset_remove(a, 0);
        vstd::seq_lib::to_multiset_remove(b, 0);
        assert(a.remove(0) =~= a.drop_first());
        assert(b.remove(0) =~= b.drop_first());
        lemma_sorted_permutation_unique(a.drop_first(), b.drop_first());
        assert(a =~= b) by {
            assert forall|i: int| 0 <= i < a.len() implies a[i] == b[i] by {
                if i > 0 {
                    assert(a[i] == a.drop_first()[i - 1]);
                    assert(b[i] == b.drop_first()[i - 1]);
                }
            }
        }
    }
}

/// A sorter after `reset_state` is in the state that `new` produces: both
/// report no pair and the same reason, can start on any sequence, and hold
/// its elements.
pub proof fn lemma_reset_is_new<S: Sorter>(made: S, reset: S, a: Seq<usize>)
    requires
        made.is_fresh(),
        reset.is_fresh(),
    ensures
        made.special_spec() == reset.special_spec(),
        made.reason_spec() == reset.reason_spec(),
        made.inv(a) && reset.inv(a),
        made.contents(a) == reset.contents(a),
{
    made.lemma_fresh(a);
    reset.lemma_fresh(a);
}

} // verus!

verus! {

/// `b` is `a`, or `a` with the pair `p` exchanged while the reason shown is
/// `Switching`: the one exchange a step may make is the pair it reports.
pub open spec fn unchanged_or_swapped_at(
    a: Seq<usize>,
    b: Seq<usize>,
    p: (usize, usize),
    reason: Reasons,
) -> bool {
    b == a || (b == swapped(a, p.0 as int, p.1 as int) && reason == Reasons::Switching)
}

} // verus!
