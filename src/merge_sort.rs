use vstd::prelude::*;
use vstd::multiset::Multiset;
use vstd::arithmetic::div_mod::{
    lemma_div_is_ordered, lemma_fundamental_div_mod, lemma_fundamental_div_mod_converse_div,
    lemma_fundamental_div_mod_converse_mod,
};
use vstd::seq_lib::{lemma_multiset_commutative, to_multiset_build};
use crate::sorter::{
    at_most_one_write, lex_lt, pair_fits, sorted, sorted_between, Reasons, Sorter, NO_INDEX,
};

verus! {

/// Positions `i <= j` of `a[lo..hi)` that fall in the same block of width
/// `w` (the same `i / w`) are in order.
pub open spec fn blocks_sorted(a: Seq<usize>, lo: int, hi: int, w: int) -> bool {
    forall|i: int, j: int|
        lo <= i <= j < hi && #[trigger] (i / w) == #[trigger] (j / w) ==> a[i] <= a[j]
}

proof fn lemma_in_block(s: int, w: int, i: int)
    requires
        w > 0,
        s >= 0,
        s % w == 0,
        s <= i < s + w,
    ensures
        i / w == s / w,
{
    lemma_fundamental_div_mod(s, w);
    assert((s / w) * w + (i - s) == i) by (nonlinear_arith)
        requires
            s == w * (s / w) + s % w,
            s % w == 0,
    ;
    lemma_fundamental_div_mod_converse_div(i, w, s / w, i - s);
}

proof fn lemma_apart(i: int, j: int, s: int, w: int)
    requires
        w > 0,
        0 <= i < s <= j,
        s % w == 0,
    ensures
        i / w < j / w,
{
    let q = s / w;
    lemma_fundamental_div_mod(s, w);
    assert((q - 1) * w + (w - 1) == s - 1) by (nonlinear_arith)
        requires
            s == w * q + s % w,
            s % w == 0,
    ;
    lemma_fundamental_div_mod_converse_div(s - 1, w, q - 1, w - 1);
    lemma_div_is_ordered(i, s - 1, w);
    lemma_div_is_ordered(s, j, w);
}

proof fn lemma_multiple(q: int, w: int)
    requires
        w > 0,
        q >= 0,
    ensures
        (q * w) % w == 0,
        (q * w) / w == q,
{
    lemma_fundamental_div_mod_converse_div(q * w, w, q, 0);
    lemma_fundamental_div_mod_converse_mod(q * w, w, q, 0);
}

/// A multiple of `2 * p` is a multiple of `p`, and adding `p` or `2 * p`
/// keeps it one.
proof fn lemma_aligned(s: int, p: int)
    requires
        p > 0,
        s >= 0,
        s % (2 * p) == 0,
    ensures
        s % p == 0,
        (s + p) % p == 0,
        (s + 2 * p) % (2 * p) == 0,
{
    let q = s / (2 * p);
    lemma_fundamental_div_mod(s, 2 * p);
    assert(s == (2 * q) * p) by (nonlinear_arith)
        requires
            s == (2 * p) * q + s % (2 * p),
            s % (2 * p) == 0,
    ;
    assert(q >= 0) by (nonlinear_arith)
        requires
            s == (2 * q) * p,
            s >= 0,
            p > 0,
    ;
    lemma_multiple(2 * q, p);
    assert(s + p == (2 * q + 1) * p) by (nonlinear_arith)
        requires
            s == (2 * q) * p,
    ;
    lemma_multiple(2 * q + 1, p);
    assert(s + 2 * p == (q + 1) * (2 * p)) by (nonlinear_arith)
        requires
            s == (2 * q) * p,
    ;
    lemma_multiple(q + 1, 2 * p);
}

/// A block of `a[lo..hi)` that starts at a multiple of `w` is sorted.
proof fn lemma_block_sorted(a: Seq<usize>, lo: int, hi: int, w: int, b: int, e: int)
    requires
        blocks_sorted(a, lo, hi, w),
        w > 0,
        0 <= lo <= b,
        b % w == 0,
        b <= e <= b + w,
        e <= hi,
    ensures
        sorted_between(a, b, e),
{
    assert forall|i: int, j: int| b <= i <= j < e implies a[i] <= a[j] by {
        lemma_in_block(b, w, i);
        lemma_in_block(b, w, j);
    }
}

/// `b` is `a`, or `a` with the one position `p.0 == p.1` overwritten while
/// the reason shown is `Switching`.
pub open spec fn unchanged_or_written_at(
    a: Seq<usize>,
    b: Seq<usize>,
    p: (usize, usize),
    reason: Reasons,
) -> bool {
    b == a || (p.0 == p.1 && p.0 < a.len() && b == a.update(p.0 as int, b[p.0 as int])
        && reason == Reasons::Switching)
}

/// A sorted stretch that follows the blocks of `a[0..s)` and fits in one
/// block extends them.
proof fn lemma_extend(a: Seq<usize>, s: int, w: int, e: int)
    requires
        w > 0,
        0 <= s <= e <= s + w,
        s % w == 0,
        blocks_sorted(a, 0, s, w),
        sorted_between(a, s, e),
    ensures
        blocks_sorted(a, 0, e, w),
{
    assert forall|i: int, j: int| 0 <= i <= j < e && #[trigger] (i / w) == #[trigger] (j / w) implies a[i] <= a[j] by {
        if i < s && s <= j {
            lemma_apart(i, j, s, w);
        }
    }
}

/// The only multiple of `w` below `w` is zero.
proof fn lemma_first_block(s: int, w: int)
    requires
        w > 0,
        0 <= s < w,
        s % w == 0,
    ensures
        s == 0,
{
    lemma_fundamental_div_mod(s, w);
    let q = s / w;
    assert(q == 0) by (nonlinear_arith)
        requires
            s == w * q + s % w,
            s % w == 0,
            0 <= s < w,
    ;
}

/// Merges the runs `array[start..=mid]` and `array[mid + 1..=end]` into
/// `array[start..=end]`: the elements stay the same, the rest of `array` is
/// untouched, and when both runs are sorted the result is sorted.
pub fn merge(array: &mut Vec<usize>, start: usize, mid: usize, end: usize)
    requires
        start <= mid <= end < old(array)@.len(),
    ensures
        final(array)@.len() == old(array)@.len(),
        final(array)@.to_multiset() == old(array)@.to_multiset(),
        forall|t: int|
            0 <= t < old(array)@.len() && !(start <= t <= end) ==> #[trigger] final(array)@[t]
                == old(array)@[t],
        sorted_between(old(array)@, start as int, mid + 1) && sorted_between(
            old(array)@,
            mid + 1,
            end + 1,
        ) ==> sorted_between(final(array)@, start as int, end + 1),
{
    broadcast use vstd::multiset::group_multiset_axioms;

    let n = array.len();
    let ghost a = array@;
    let ghost runs_sorted = sorted_between(a, start as int, mid + 1) && sorted_between(
        a,
        mid + 1,
        end + 1,
    );
    let mut merged: Vec<usize> = Vec::new();
    let mut i = start;
    let mut j = mid + 1;
    proof {
        assert(merged@ =~= Seq::<usize>::empty());
        assert(a.subrange(start as int, start as int) =~= Seq::<usize>::empty());
        assert(a.subrange(mid + 1, mid + 1) =~= Seq::<usize>::empty());
        vstd::seq_lib::to_multiset_len(Seq::<usize>::empty());
        vstd::multiset::lemma_multiset_empty_len(Seq::<usize>::empty().to_multiset());
    }
    while i <= mid || j <= end
        invariant
            array@ == a,
            start <= i <= mid + 1,
            mid + 1 <= j <= end + 1,
            end < n,
            n == a.len(),
            merged@.len() == (i - start) + (j - mid - 1),
            merged@.to_multiset() == a.subrange(start as int, i as int).to_multiset().add(
                a.subrange(mid + 1, j as int).to_multiset(),
            ),
            runs_sorted == (sorted_between(a, start as int, mid + 1) && sorted_between(
                a,
                mid + 1,
                end + 1,
            )),
            runs_sorted ==> sorted_between(merged@, 0, merged@.len() as int),
            runs_sorted ==> forall|t: int|
                0 <= t < merged@.len() ==> (i <= mid ==> #[trigger] merged@[t] <= a[i as int]) && (
                j <= end ==> merged@[t] <= a[j as int]),
        decreases (mid + 1 - i) + (end + 1 - j),
    {
        let ghost m0 = merged@;
        let v: usize;
        if j > end || (i <= mid && array[i] <= array[j]) {
            v = array[i];
            proof {
                assert(a.subrange(start as int, i + 1) =~= a.subrange(start as int, i as int).push(v));
                to_multiset_build(a.subrange(start as int, i as int), v);
            }
            i = i + 1;
        } else {
            v = array[j];
            proof {
                assert(a.subrange(mid + 1, j + 1) =~= a.subrange(mid + 1, j as int).push(v));
                to_multiset_build(a.subrange(mid + 1, j as int), v);
            }
            j = j + 1;
        }
        merged.push(v);
        proof {
            to_multiset_build(m0, v);
            assert(merged@.to_multiset() =~= a.subrange(start as int, i as int).to_multiset().add(
                a.subrange(mid + 1, j as int).to_multiset(),
            ));
        }
    }
    proof {
        assert(a.subrange(start as int, end + 1) =~= a.subrange(start as int, mid + 1) + a.subrange(
            mid + 1,
            end + 1,
        ));
        lemma_multiset_commutative(a.subrange(start as int, mid + 1), a.subrange(mid + 1, end + 1));
    }
    let mut t: usize = 0;
    while t < merged.len()
        invariant
            merged@.len() == end + 1 - start,
            array@.len() == a.len(),
            end < a.len(),
            t <= merged@.len(),
            forall|x: int| 0 <= x < a.len() && !(start <= x < start + t) ==> #[trigger] array@[x]
                == a[x],
            forall|x: int| start <= x < start + t ==> #[trigger] array@[x] == merged@[x - start],
        decreases merged@.len() - t,
    {
        array[start + t] = merged[t];
        t = t + 1;
    }
    proof {
        let b = array@;
        let n = a.len() as int;
        assert(b.subrange(start as int, end + 1) =~= merged@);
        assert(b.subrange(0, start as int) =~= a.subrange(0, start as int));
        assert(b.subrange(end + 1, n) =~= a.subrange(end + 1, n));
        assert(b =~= b.subrange(0, start as int) + b.subrange(start as int, end + 1) + b.subrange(end + 1, n));
        assert(a =~= a.subrange(0, start as int) + a.subrange(start as int, end + 1) + a.subrange(end + 1, n));
        lemma_multiset_commutative(b.subrange(0, start as int), b.subrange(start as int, end + 1));
        lemma_multiset_commutative(b.subrange(0, start as int) + b.subrange(start as int, end + 1), b.subrange(end + 1, n));
        lemma_multiset_commutative(a.subrange(0, start as int), a.subrange(start as int, end + 1));
        lemma_multiset_commutative(a.subrange(0, start as int) + a.subrange(start as int, end + 1), a.subrange(end + 1, n));
        if runs_sorted {
            assert forall|x: int, y: int| start <= x <= y < end + 1 implies b[x] <= b[y] by {
                assert(b[x] == merged@[x - start] && b[y] == merged@[y - start]);
            }
        }
    }
}

#[derive(PartialEq, Eq, Structural)]
enum State {
    Init,
    Comparing,
    Merging,
    Over,
}

/// Bottom-up merge sort. Pass `power` merges the sorted runs of width
/// `power` pairwise; the window `[slice, slice + 2 * power)` is merged into
/// the scratch buffer one comparison per step, then copied back one element
/// per step.
pub struct MergeSort {
    power: usize,
    slice: usize,
    special: (usize, usize),
    reason: Reasons,
    state: State,
    temp: Vec<usize>,
    i: usize,
    j: usize,
    k: usize,
    merge_tracker: usize,
}

impl MergeSort {
    /// Start of the window being merged.
    pub closed spec fn window_start(&self) -> int {
        self.slice as int
    }

    /// Start of the right half of the window, for a sequence of length `n`.
    pub closed spec fn window_mid(&self, n: int) -> int {
        self.mid(n)
    }

    /// End (exclusive) of the window, for a sequence of length `n`.
    pub closed spec fn window_end(&self, n: int) -> int {
        self.hi(n)
    }

    /// The scratch buffer the window is merged into.
    pub closed spec fn scratch(&self) -> Seq<usize> {
        self.temp@
    }

    /// Start of the right half of the window.
    closed spec fn mid(&self, n: int) -> int {
        if self.power <= n - self.slice { self.slice + self.power } else { n }
    }

    /// End (exclusive) of the window.
    closed spec fn hi(&self, n: int) -> int {
        if 2 * self.power <= n - self.slice { self.slice + 2 * self.power } else { n }
    }

    closed spec fn phase_inv(&self, a: Seq<usize>) -> bool {
        let n = a.len() as int;
        let s = self.slice as int;
        let mid = self.mid(n);
        let hi = self.hi(n);
        let t = self.temp@;
        match self.state {
            State::Init => sorted_between(a, s, mid) && sorted_between(a, mid, hi),
            State::Comparing => {
                &&& t.len() == n
                &&& s <= self.i <= mid <= self.j <= hi
                &&& self.k == self.i + self.j - mid
                &&& sorted_between(a, s, mid)
                &&& sorted_between(a, mid, hi)
                &&& sorted_between(t, s, self.k as int)
                &&& forall|x: int| 0 <= x < n && !(s <= x < self.k) ==> #[trigger] t[x] == a[x]
                &&& forall|x: int|
                    s <= x < self.k ==> (self.i < mid ==> #[trigger] t[x] <= a[self.i as int]) && (
                    self.j < hi ==> t[x] <= a[self.j as int])
                &&& t.subrange(s, self.k as int).to_multiset() == a.subrange(
                    s,
                    self.i as int,
                ).to_multiset().add(a.subrange(mid, self.j as int).to_multiset())
            },
            State::Merging => {
                &&& t.len() == n
                &&& s <= self.merge_tracker < hi
                &&& sorted_between(t, s, hi)
                &&& forall|x: int| 0 <= x < n && !(s <= x < hi) ==> #[trigger] t[x] == a[x]
                &&& forall|x: int| s <= x < self.merge_tracker ==> #[trigger] a[x] == t[x]
            },
            State::Over => sorted_between(a, s, hi),
        }
    }

    /// A window has been chosen and is not finished yet.
    pub closed spec fn window_open(&self) -> bool {
        self.slice != NO_INDEX && self.state != State::Over
    }

    /// Passes left, windows left in this pass, and work left in this window.
    pub closed spec fn rank(&self, n: nat) -> (nat, nat, nat) {
        (
            (n - self.power) as nat,
            if self.slice == NO_INDEX { (n + 1) as nat } else { (n - self.slice) as nat },
            match self.state {
                State::Init => (3 * n + 3) as nat,
                State::Comparing => (2 * n + 2 + n - self.k) as nat,
                State::Merging => (n + 1 + n - self.merge_tracker) as nat,
                State::Over => 0,
            },
        )
    }

    /// The bounds `(mid, hi)` of the current window.
    fn window(&self, len: usize) -> (r: (usize, usize))
        requires
            self.slice < len,
        ensures
            r.0 == self.mid(len as int),
            r.1 == self.hi(len as int),
    {
        let rest = len - self.slice;
        let mid = if self.power <= rest { self.slice + self.power } else { len };
        let hi = if self.power <= rest && self.power <= rest - self.power {
            self.slice + self.power + self.power
        } else {
            len
        };
        (mid, hi)
    }

    /// Merge a window of `array` into the scratch buffer, one comparison per
    /// call, then copies it back, one element per call.
    pub fn switch(&mut self, array: &mut Vec<usize>)
        requires
            old(self).inv(old(array)@),
            old(array)@.len() >= 2,
            old(self).window_open(),
        ensures
            final(self).inv(final(array)@),
            final(self).contents(final(array)@) == old(self).contents(old(array)@),
            final(array)@.len() == old(array)@.len(),
            at_most_one_write(old(array)@, final(array)@),
            unchanged_or_written_at(
                old(array)@,
                final(array)@,
                final(self).special_spec(),
                final(self).reason_spec(),
            ),
            final(self).reason_spec() == Reasons::Comparing ==> final(array)@ == old(array)@,
            final(self).reason_spec() == Reasons::Comparing ==> final(self).window_start()
                <= final(self).special_spec().0,
            final(self).reason_spec() == Reasons::Comparing ==> final(self).special_spec().0
                < final(self).window_mid(final(array)@.len() as int),
            final(self).reason_spec() == Reasons::Comparing ==> final(self).window_mid(final(array)@.len() as int)
                <= final(self).special_spec().1,
            final(self).reason_spec() == Reasons::Comparing ==> final(self).special_spec().1
                < final(self).window_end(final(array)@.len() as int),
            final(self).reason_spec() == Reasons::Switching ==> final(self).special_spec().0
                == final(self).special_spec().1 && final(self).window_start()
                <= final(self).special_spec().0 < final(self).window_end(final(array)@.len() as int)
                && final(array)@ == old(array)@.update(
                final(self).special_spec().0 as int,
                final(self).scratch()[final(self).special_spec().0 as int],
            ),
            lex_lt(final(self).rank(final(array)@.len()), old(self).rank(old(array)@.len())),
    {
        let (mid, hi) = self.window(array.len());
        if self.state == State::Init {
            self.begin_window(array, mid, hi);
        }
        if self.state == State::Comparing {
            self.compare_next(array, mid, hi);
        }
        if self.state == State::Merging {
            self.commit_next(array, hi);
        }
    }

    fn begin_window(&mut self, array: &Vec<usize>, mid: usize, hi: usize)
        requires
            old(self).inv(array@),
            array@.len() >= 2,
            old(self).slice != NO_INDEX,
            old(self).state == State::Init,
            mid == old(self).mid(array@.len() as int),
            hi == old(self).hi(array@.len() as int),
        ensures
            final(self).inv(array@),
            final(self).state == State::Comparing,
            final(self).k == final(self).slice,
            final(self).power == old(self).power,
            final(self).slice == old(self).slice,
            final(self).special == old(self).special,
    {
        self.temp = array.clone();
        assert(self.temp@ =~= array@);
        self.i = self.slice;
        self.j = mid;
        self.k = self.slice;
        self.state = State::Comparing;
        proof {
            let a = array@;
            let s = self.slice as int;
            assert(self.temp@.subrange(s, s) =~= Seq::<usize>::empty());
            assert(a.subrange(s, s) =~= Seq::<usize>::empty());
            assert(a.subrange(mid as int, mid as int) =~= Seq::<usize>::empty());
            vstd::seq_lib::to_multiset_len(Seq::<usize>::empty());
            vstd::multiset::lemma_multiset_empty_len(Seq::<usize>::empty().to_multiset());
            assert(Multiset::<usize>::empty().add(Multiset::empty()) =~= Multiset::empty());
        }
    }

    fn compare_next(&mut self, array: &Vec<usize>, mid: usize, hi: usize)
        requires
            old(self).inv(array@),
            array@.len() >= 2,
            old(self).slice != NO_INDEX,
            old(self).state == State::Comparing,
            mid == old(self).mid(array@.len() as int),
            hi == old(self).hi(array@.len() as int),
        ensures
            final(self).inv(array@),
            final(self).state == State::Comparing || final(self).state == State::Merging,
            final(self).state == State::Comparing ==> final(self).k > old(self).k,
            final(self).state == State::Comparing ==> final(self).reason == Reasons::Comparing
                && final(self).slice <= final(self).special.0 < mid <= final(self).special.1 < hi,
            final(self).state == State::Merging ==> final(self).merge_tracker == final(self).slice,
            final(self).contents(array@) == array@.to_multiset(),
            final(self).power == old(self).power,
            final(self).slice == old(self).slice,
    {
        broadcast use vstd::multiset::group_multiset_axioms;

        let ghost a = array@;
        let ghost s = self.slice as int;
        if self.i < mid && self.j < hi {
            self.special = (self.i, self.j);
            self.reason = Reasons::Comparing;
            let ghost t0 = self.temp@;
            let ghost k0 = self.k as int;
            let v: usize;
            if array[self.i] < array[self.j] {
                v = array[self.i];
                self.temp[self.k] = v;
                proof {
                    assert(a.subrange(s, self.i + 1) =~= a.subrange(s, self.i as int).push(v));
                    to_multiset_build(a.subrange(s, self.i as int), v);
                }
                self.i = self.i + 1;
            } else {
                v = array[self.j];
                self.temp[self.k] = v;
                proof {
                    assert(a.subrange(mid as int, self.j + 1) =~= a.subrange(mid as int, self.j as int).push(v));
                    to_multiset_build(a.subrange(mid as int, self.j as int), v);
                }
                self.j = self.j + 1;
            }
            self.k = self.k + 1;
            proof {
                assert(self.temp@.subrange(s, self.k as int) =~= t0.subrange(s, k0).push(v));
                to_multiset_build(t0.subrange(s, k0), v);
                assert(self.temp@.subrange(s, self.k as int).to_multiset() =~= a.subrange(
                    s,
                    self.i as int,
                ).to_multiset().add(a.subrange(mid as int, self.j as int).to_multiset()));
            }
        } else {
            while self.i < mid
                invariant
                    self.inv(array@),
                    array@ == a,
                    s == self.slice,
                    self.slice != NO_INDEX,
                    array@.len() >= 2,
                    self.state == State::Comparing,
                    mid == self.mid(array@.len() as int),
                    hi == self.hi(array@.len() as int),
                    self.i == mid || self.j == hi,
                    self.power == old(self).power,
                    self.slice == old(self).slice,
                decreases mid - self.i,
            {
                let ghost t0 = self.temp@;
                let ghost k0 = self.k as int;
                let v = array[self.i];
                self.temp[self.k] = v;
                proof {
                    assert(a.subrange(s, self.i + 1) =~= a.subrange(s, self.i as int).push(v));
                    to_multiset_build(a.subrange(s, self.i as int), v);
                    assert(self.temp@.subrange(s, k0 + 1) =~= t0.subrange(s, k0).push(v));
                    to_multiset_build(t0.subrange(s, k0), v);
                }
                self.k = self.k + 1;
                self.i = self.i + 1;
                proof {
                    assert(self.temp@.subrange(s, self.k as int).to_multiset() =~= a.subrange(
                        s,
                        self.i as int,
                    ).to_multiset().add(a.subrange(mid as int, self.j as int).to_multiset()));
                }
            }
            proof {
                self.lemma_merged(a, mid as int, hi as int);
            }
            self.state = State::Merging;
            self.merge_tracker = self.slice;
        }
    }

    /// When the left half is used up, the scratch buffer holds the merged
    /// window and the same elements as the sequence.
    proof fn lemma_merged(&self, a: Seq<usize>, mid: int, hi: int)
        requires
            self.inv(a),
            a.len() >= 2,
            self.slice != NO_INDEX,
            self.state == State::Comparing,
            mid == self.mid(a.len() as int),
            hi == self.hi(a.len() as int),
            self.i == mid,
        ensures
            sorted_between(self.temp@, self.slice as int, hi),
            self.temp@.to_multiset() == a.to_multiset(),
    {
        broadcast use vstd::multiset::group_multiset_axioms;

        let t = self.temp@;
        let s = self.slice as int;
        let n = a.len() as int;
        let k = self.k as int;
        let j = self.j as int;
        assert(k == j);
        assert forall|x: int, y: int| s <= x <= y < hi implies t[x] <= t[y] by {
            if x < k && y >= k {
                assert(t[y] == a[y]);
                assert(t[x] <= a[j]);
            } else if x >= k {
                assert(t[x] == a[x] && t[y] == a[y]);
            }
        }
        assert(t.subrange(k, hi) =~= a.subrange(j, hi));
        assert(t.subrange(s, hi) =~= t.subrange(s, k) + t.subrange(k, hi));
        lemma_multiset_commutative(t.subrange(s, k), t.subrange(k, hi));
        assert(a.subrange(mid, hi) =~= a.subrange(mid, j) + a.subrange(j, hi));
        lemma_multiset_commutative(a.subrange(mid, j), a.subrange(j, hi));
        assert(a.subrange(s, hi) =~= a.subrange(s, mid) + a.subrange(mid, hi));
        lemma_multiset_commutative(a.subrange(s, mid), a.subrange(mid, hi));
        assert(t.subrange(s, hi).to_multiset() =~= a.subrange(s, hi).to_multiset());
        assert(t.subrange(0, s) =~= a.subrange(0, s));
        assert(t.subrange(hi, n) =~= a.subrange(hi, n));
        assert(t =~= t.subrange(0, s) + t.subrange(s, hi) + t.subrange(hi, n));
        assert(a =~= a.subrange(0, s) + a.subrange(s, hi) + a.subrange(hi, n));
        lemma_multiset_commutative(t.subrange(0, s), t.subrange(s, hi));
        lemma_multiset_commutative(t.subrange(0, s) + t.subrange(s, hi), t.subrange(hi, n));
        lemma_multiset_commutative(a.subrange(0, s), a.subrange(s, hi));
        lemma_multiset_commutative(a.subrange(0, s) + a.subrange(s, hi), a.subrange(hi, n));
    }

    fn commit_next(&mut self, array: &mut Vec<usize>, hi: usize)
        requires
            old(self).inv(old(array)@),
            old(array)@.len() >= 2,
            old(self).slice != NO_INDEX,
            old(self).state == State::Merging,
            hi == old(self).hi(old(array)@.len() as int),
        ensures
            final(self).inv(final(array)@),
            final(self).contents(final(array)@) == old(self).contents(old(array)@),
            final(array)@.len() == old(array)@.len(),
            final(self).state == State::Merging ==> final(self).merge_tracker
                > old(self).merge_tracker,
            final(self).state == State::Merging || final(self).state == State::Over,
            final(self).power == old(self).power,
            final(self).slice == old(self).slice,
            final(self).reason == Reasons::Switching,
            final(self).special.0 == final(self).special.1,
            final(self).slice <= final(self).special.0 < hi,
            final(array)@ == old(array)@.update(
                final(self).special.0 as int,
                final(self).temp@[final(self).special.0 as int],
            ),
            at_most_one_write(old(array)@, final(array)@),
            unchanged_or_written_at(
                old(array)@,
                final(array)@,
                final(self).special_spec(),
                final(self).reason_spec(),
            ),
    {
        self.special = (self.merge_tracker, self.merge_tracker);
        self.reason = Reasons::Switching;
        let v = self.temp[self.merge_tracker];
        array[self.merge_tracker] = v;
        assert(array@ == old(array)@.update(self.merge_tracker as int, array@[self.merge_tracker as int]));
        if self.merge_tracker + 1 >= hi {
            self.state = State::Over;
            proof {
                assert(array@ =~= self.temp@);
            }
        } else {
            self.merge_tracker = self.merge_tracker + 1;
        }
    }
}

impl Sorter for MergeSort {
    closed spec fn is_fresh(&self) -> bool {
        &&& self.power == 1
        &&& self.slice == NO_INDEX
        &&& self.reason == Reasons::Comparing
        &&& self.special == (NO_INDEX, NO_INDEX)
        &&& self.state == State::Init
        &&& self.temp@.len() == 0
        &&& self.i == NO_INDEX
        &&& self.j == NO_INDEX
        &&& self.k == NO_INDEX
        &&& self.merge_tracker == 0
    }

    closed spec fn inv(&self, a: Seq<usize>) -> bool {
        let n = a.len() as int;
        let s = self.slice as int;
        let p = self.power as int;
        &&& pair_fits(self.special, a.len())
        &&& n >= 2 && self.slice == NO_INDEX ==> self.power == 1 && self.state == State::Init
        &&& n >= 2 && self.slice != NO_INDEX ==> {
            &&& 1 <= p <= n
            &&& s < n
            &&& s % (2 * p) == 0
            &&& blocks_sorted(a, 0, s, 2 * p)
            &&& blocks_sorted(a, self.hi(n), n, p)
            &&& self.phase_inv(a)
        }
    }

    closed spec fn contents(&self, a: Seq<usize>) -> Multiset<usize> {
        if self.state == State::Merging && a.len() >= 2 && self.slice != NO_INDEX {
            self.temp@.to_multiset()
        } else {
            a.to_multiset()
        }
    }

    closed spec fn special_spec(&self) -> (usize, usize) {
        self.special
    }

    open spec fn always_ends() -> bool {
        true
    }

    closed spec fn reason_spec(&self) -> Reasons {
        self.reason
    }

    proof fn lemma_fresh(&self, a: Seq<usize>) {
    }

    fn new() -> (r: Self) {
        MergeSort {
            power: 1,
            slice: NO_INDEX,
            reason: Reasons::Comparing,
            special: (NO_INDEX, NO_INDEX),
            state: State::Init,
            temp: Vec::new(),
            i: NO_INDEX,
            j: NO_INDEX,
            k: NO_INDEX,
            merge_tracker: 0,
        }
    }

    fn special(&self) -> (r: (usize, usize)) {
        self.special
    }

    fn reason(&self) -> (r: Reasons) {
        self.reason
    }

    fn step(&mut self, array: &mut Vec<usize>) -> (done: bool)
        ensures
            done ==> sorted(final(array)@),
            done ==> final(array)@ == old(array)@,
            !done ==> lex_lt(final(self).rank(final(array)@.len()), old(self).rank(old(array)@.len())),
            at_most_one_write(old(array)@, final(array)@),
            unchanged_or_written_at(
                old(array)@,
                final(array)@,
                final(self).special_spec(),
                final(self).reason_spec(),
            ),
    {
        let size = array.len();
        if size <= 1 {
            return true;
        }
        if self.slice == NO_INDEX {
            self.slice = 0;
            proof {
                lemma_multiple(0, 2);
                let a = array@;
                assert(self.hi(size as int) == 2);
                assert forall|i: int, j: int|
                    2 <= i <= j < size && #[trigger] (i / 1) == #[trigger] (j / 1) implies a[i] <= a[j] by {
                }
            }
        }
        if self.state == State::Over {
            let ghost a = array@;
            let ghost n = size as int;
            let ghost s = self.slice as int;
            let ghost p = self.power as int;
            let ghost hi = self.hi(n);
            if size - self.power < self.power {
                proof {
                    lemma_first_block(s, 2 * p);
                }
                return true;
            }
            proof {
                lemma_aligned(s, p);
                lemma_extend(a, s, 2 * p, hi);
            }
            if self.slice < size - self.power - self.power {
                self.slice = self.slice + self.power + self.power;
                proof {
                    let s2 = self.slice as int;
                    lemma_aligned(s2, p);
                    lemma_block_sorted(a, hi, n, p, s2, self.mid(n));
                    if self.mid(n) < n {
                        lemma_block_sorted(a, hi, n, p, self.mid(n), self.hi(n));
                    }
                }
            } else {
                self.slice = 0;
                self.power = self.power * 2;
                proof {
                    lemma_multiple(0, 4 * p);
                    lemma_multiple(1, 2 * p);
                    lemma_block_sorted(a, 0, n, 2 * p, 0, self.mid(n));
                    if self.mid(n) < n {
                        lemma_block_sorted(a, 0, n, 2 * p, self.mid(n), self.hi(n));
                    }
                }
            }
            self.state = State::Init;
        }
        self.switch(array);
        false
    }

    fn run(&mut self, array: &mut Vec<usize>)
        ensures
            sorted(final(array)@),
    {
        let ghost m = self.contents(array@);
        loop
            invariant_except_break
                self.inv(array@),
                self.contents(array@) == m,
            ensures
                sorted(array@),
                array@.to_multiset() == m,
            decreases self.rank(array@.len()).0, self.rank(array@.len()).1, self.rank(array@.len()).2,
        {
            if self.step(array) {
                break;
            }
        }
        self.reset_state();
    }

    fn reset_state(&mut self) {
        *self = MergeSort::new();
    }
}

} // verus!
