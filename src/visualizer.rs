//! The state a front end keeps around a sorter: the numbers, the numbers it
//! started from, the chosen algorithm, and whether a run is going on.
use vstd::prelude::*;
use vstd::multiset::Multiset;
use crate::bogo_sort::BogoSort;
use crate::bubble_sort::BubbleSort;
use crate::heap_sort::HeapSort;
use crate::insertion_sort::InsertionSort;
use crate::merge_sort::{unchanged_or_written_at, MergeSort};
use crate::quick_sort::QuickSort;
use crate::selection_sort::SelectionSort;
use crate::sorter::{
    at_most_one_swap, at_most_one_write, lex_lt, pair_fits, sorted, swapped,
    unchanged_or_swapped_at, Reasons, Sorter, NO_INDEX,
};
use crate::util::gen_random_vector;

verus! {

/// Smallest value of a generated number.
pub const FLOOR: usize = 1;

/// Bound (exclusive) of a generated number.
pub const CEIL: usize = 21;

/// How many numbers are generated.
pub const VECTOR_SIZE: usize = 20;

/// The algorithms on offer.
#[derive(PartialEq, Eq, Structural, Debug, Clone, Copy)]
pub enum Algorithms {
    Bubble,
    Selection,
    Insertion,
    Merge,
    Bogo,
    Quick,
    Heap,
}

/// Whether a run is going on.
#[derive(PartialEq, Eq, Structural, Debug, Clone, Copy)]
pub enum State {
    Start,
    Running,
    Finished,
}

/// One sorter of any of the algorithms.
pub enum AnySorter {
    Bubble(BubbleSort),
    Selection(SelectionSort),
    Insertion(InsertionSort),
    Merge(MergeSort),
    Bogo(BogoSort),
    Quick(QuickSort),
    Heap(HeapSort),
}

impl AnySorter {
    /// A fresh sorter of the algorithm `which`.
    pub fn of(which: Algorithms) -> (r: AnySorter)
        ensures
            r.is_fresh(),
            r.algorithm() == which,
    {
        match which {
            Algorithms::Bubble => AnySorter::Bubble(BubbleSort::new()),
            Algorithms::Selection => AnySorter::Selection(SelectionSort::new()),
            Algorithms::Insertion => AnySorter::Insertion(InsertionSort::new()),
            Algorithms::Merge => AnySorter::Merge(MergeSort::new()),
            Algorithms::Bogo => AnySorter::Bogo(BogoSort::new()),
            Algorithms::Heap => AnySorter::Heap(HeapSort::new()),
            Algorithms::Quick => AnySorter::Quick(QuickSort::new()),
        }
    }

    /// How far the sorter still has to go on `a`; every step of every
    /// algorithm but bogo sort lowers it.
    pub open spec fn rank(&self, a: Seq<usize>) -> (nat, nat, nat) {
        match self {
            AnySorter::Bubble(s) => s.rank(a.len()),
            AnySorter::Selection(s) => s.rank(a.len()),
            AnySorter::Insertion(s) => s.rank(a.len()),
            AnySorter::Merge(s) => s.rank(a.len()),
            AnySorter::Bogo(_) => (0, 0, 0),
            AnySorter::Quick(s) => s.rank(a),
            AnySorter::Heap(s) => s.rank(a.len()),
        }
    }

    /// One call of `step` on `self` and the sequence `a` can leave the sorter
    /// as `next` and the sequence as `b`, returning `done`: what every
    /// algorithm's `step` promises, and for each algorithm its own rule.
    pub open spec fn took_step(&self, next: &AnySorter, a: Seq<usize>, b: Seq<usize>, done: bool) -> bool {
        &&& b.len() == a.len()
        &&& next.algorithm() == self.algorithm()
        &&& done ==> sorted(b) && b == a && b.to_multiset() == self.contents(a)
        &&& !done ==> next.inv(b) && next.contents(b) == self.contents(a)
        &&& pair_fits(next.special_spec(), b.len())
        &&& self.algorithm() != Algorithms::Bogo && !done ==> lex_lt(next.rank(b), self.rank(a))
        &&& self.algorithm() != Algorithms::Bogo && self.algorithm() != Algorithms::Merge
            ==> at_most_one_swap(a, b)
        &&& self.algorithm() == Algorithms::Merge ==> at_most_one_write(a, b)
        &&& match (*self, *next) {
            (AnySorter::Bubble(s0), AnySorter::Bubble(s1)) => {
                &&& s0.switch_pending() ==> !done && s0.switched(&s1, a, b)
                &&& !s0.switch_pending() ==> b == a && s0.compared(&s1, a, done)
            },
            (AnySorter::Insertion(s0), AnySorter::Insertion(s1)) => {
                &&& s0.switch_pending() ==> !done && s0.switched_pair(&s1, a, b)
                &&& !s0.switch_pending() ==> b == a && s0.compared(&s1, a, done)
            },
            (AnySorter::Selection(s0), AnySorter::Selection(s1)) => {
                &&& s0.switch_pending() ==> !done && s0.switched_pair(&s1, a, b)
                &&& !s0.switch_pending() ==> b == a && s0.compared(&s1, a, done)
            },
            (AnySorter::Bogo(s0), AnySorter::Bogo(s1)) => {
                &&& s0.shuffle_pending() ==> !done && s1.after_shuffle() && s1.special_spec() == (
                    NO_INDEX,
                    NO_INDEX,
                ) && b.to_multiset() == a.to_multiset()
                &&& !s0.shuffle_pending() ==> b == a && s0.compared(&s1, a, done)
            },
            (AnySorter::Heap(_), AnySorter::Heap(s1)) => !done ==> s1.special_spec() != (
                NO_INDEX,
                NO_INDEX,
            ) && b == swapped(a, s1.special_spec().0 as int, s1.special_spec().1 as int),
            (AnySorter::Quick(_), AnySorter::Quick(s1)) => unchanged_or_swapped_at(
                a,
                b,
                s1.special_spec(),
                s1.reason_spec(),
            ),
            (AnySorter::Merge(_), AnySorter::Merge(s1)) => unchanged_or_written_at(
                a,
                b,
                s1.special_spec(),
                s1.reason_spec(),
            ),
            _ => true,
        }
    }

    /// The algorithm this sorter runs.
    pub open spec fn algorithm(&self) -> Algorithms {
        match self {
            AnySorter::Bubble(_) => Algorithms::Bubble,
            AnySorter::Selection(_) => Algorithms::Selection,
            AnySorter::Insertion(_) => Algorithms::Insertion,
            AnySorter::Merge(_) => Algorithms::Merge,
            AnySorter::Bogo(_) => Algorithms::Bogo,
            AnySorter::Quick(_) => Algorithms::Quick,
            AnySorter::Heap(_) => Algorithms::Heap,
        }
    }
}

impl Sorter for AnySorter {
    open spec fn is_fresh(&self) -> bool {
        match self {
            AnySorter::Bubble(s) => s.is_fresh(),
            AnySorter::Selection(s) => s.is_fresh(),
            AnySorter::Insertion(s) => s.is_fresh(),
            AnySorter::Merge(s) => s.is_fresh(),
            AnySorter::Bogo(s) => s.is_fresh(),
            AnySorter::Quick(s) => s.is_fresh(),
            AnySorter::Heap(s) => s.is_fresh(),
        }
    }

    open spec fn inv(&self, a: Seq<usize>) -> bool {
        match self {
            AnySorter::Bubble(s) => s.inv(a),
            AnySorter::Selection(s) => s.inv(a),
            AnySorter::Insertion(s) => s.inv(a),
            AnySorter::Merge(s) => s.inv(a),
            AnySorter::Bogo(s) => s.inv(a),
            AnySorter::Quick(s) => s.inv(a),
            AnySorter::Heap(s) => s.inv(a),
        }
    }

    open spec fn contents(&self, a: Seq<usize>) -> Multiset<usize> {
        match self {
            AnySorter::Bubble(s) => s.contents(a),
            AnySorter::Selection(s) => s.contents(a),
            AnySorter::Insertion(s) => s.contents(a),
            AnySorter::Merge(s) => s.contents(a),
            AnySorter::Bogo(s) => s.contents(a),
            AnySorter::Quick(s) => s.contents(a),
            AnySorter::Heap(s) => s.contents(a),
        }
    }

    open spec fn special_spec(&self) -> (usize, usize) {
        match self {
            AnySorter::Bubble(s) => s.special_spec(),
            AnySorter::Selection(s) => s.special_spec(),
            AnySorter::Insertion(s) => s.special_spec(),
            AnySorter::Merge(s) => s.special_spec(),
            AnySorter::Bogo(s) => s.special_spec(),
            AnySorter::Quick(s) => s.special_spec(),
            AnySorter::Heap(s) => s.special_spec(),
        }
    }

    open spec fn always_ends() -> bool {
        false
    }

    open spec fn reason_spec(&self) -> Reasons {
        match self {
            AnySorter::Bubble(s) => s.reason_spec(),
            AnySorter::Selection(s) => s.reason_spec(),
            AnySorter::Insertion(s) => s.reason_spec(),
            AnySorter::Merge(s) => s.reason_spec(),
            AnySorter::Bogo(s) => s.reason_spec(),
            AnySorter::Quick(s) => s.reason_spec(),
            AnySorter::Heap(s) => s.reason_spec(),
        }
    }

    proof fn lemma_fresh(&self, a: Seq<usize>) {
        match self {
            AnySorter::Bubble(s) => s.lemma_fresh(a),
            AnySorter::Selection(s) => s.lemma_fresh(a),
            AnySorter::Insertion(s) => s.lemma_fresh(a),
            AnySorter::Merge(s) => s.lemma_fresh(a),
            AnySorter::Bogo(s) => s.lemma_fresh(a),
            AnySorter::Quick(s) => s.lemma_fresh(a),
            AnySorter::Heap(s) => s.lemma_fresh(a),
        }
    }

    /// A bubble sorter.
    fn new() -> (r: Self) {
        AnySorter::Bubble(BubbleSort::new())
    }

    fn special(&self) -> (r: (usize, usize)) {
        match self {
            AnySorter::Bubble(s) => s.special(),
            AnySorter::Selection(s) => s.special(),
            AnySorter::Insertion(s) => s.special(),
            AnySorter::Merge(s) => s.special(),
            AnySorter::Bogo(s) => s.special(),
            AnySorter::Quick(s) => s.special(),
            AnySorter::Heap(s) => s.special(),
        }
    }

    fn reason(&self) -> (r: Reasons) {
        match self {
            AnySorter::Bubble(s) => s.reason(),
            AnySorter::Selection(s) => s.reason(),
            AnySorter::Insertion(s) => s.reason(),
            AnySorter::Merge(s) => s.reason(),
            AnySorter::Bogo(s) => s.reason(),
            AnySorter::Quick(s) => s.reason(),
            AnySorter::Heap(s) => s.reason(),
        }
    }

    fn step(&mut self, array: &mut Vec<usize>) -> (done: bool)
        ensures
            old(self).took_step(&*final(self), old(array)@, final(array)@, done),
    {
        match self {
            AnySorter::Bubble(s) => s.step(array),
            AnySorter::Selection(s) => s.step(array),
            AnySorter::Insertion(s) => s.step(array),
            AnySorter::Merge(s) => s.step(array),
            AnySorter::Bogo(s) => s.step(array),
            AnySorter::Quick(s) => s.step(array),
            AnySorter::Heap(s) => s.step(array),
        }
    }

    fn run(&mut self, array: &mut Vec<usize>)
        ensures
            old(self).algorithm() != Algorithms::Bogo ==> sorted(final(array)@),
    {
        match self {
            AnySorter::Bubble(s) => s.run(array),
            AnySorter::Selection(s) => s.run(array),
            AnySorter::Insertion(s) => s.run(array),
            AnySorter::Merge(s) => s.run(array),
            AnySorter::Bogo(s) => s.run(array),
            AnySorter::Quick(s) => s.run(array),
            AnySorter::Heap(s) => s.run(array),
        }
    }

    fn reset_state(&mut self)
        ensures
            final(self).algorithm() == old(self).algorithm(),
    {
        match self {
            AnySorter::Bubble(s) => s.reset_state(),
            AnySorter::Selection(s) => s.reset_state(),
            AnySorter::Insertion(s) => s.reset_state(),
            AnySorter::Merge(s) => s.reset_state(),
            AnySorter::Bogo(s) => s.reset_state(),
            AnySorter::Quick(s) => s.reset_state(),
            AnySorter::Heap(s) => s.reset_state(),
        }
    }
}

/// The numbers being sorted, the numbers they started as, the algorithm
/// chosen, and whether a run is going on.
pub struct Visualizer {
    pub selected: Algorithms,
    pub numbers: Vec<usize>,
    pub original_numbers: Vec<usize>,
    pub state: State,
    pub sorter: AnySorter,
}

impl Default for Visualizer {
    /// Random numbers, sorted by bubble sort.
    fn default() -> (r: Self)
        ensures
            r.wf(),
            r.selected == Algorithms::Bubble,
            r.sorter.algorithm() == Algorithms::Bubble,
            r.sorter.is_fresh(),
            r.state == State::Start,
            r.numbers@ == r.original_numbers@,
            r.numbers@.len() == VECTOR_SIZE,
    {
        let numbers: Vec<usize> = gen_random_vector(FLOOR, CEIL, VECTOR_SIZE);
        let sorter = AnySorter::of(Algorithms::Bubble);
        proof {
            sorter.lemma_fresh(numbers@);
        }
        Visualizer {
            selected: Algorithms::Bubble,
            numbers: numbers.clone(),
            state: State::Start,
            original_numbers: numbers,
            sorter,
        }
    }
}

impl Visualizer {
    /// The sorter can take its next step on the numbers.
    pub open spec fn wf(&self) -> bool {
        self.sorter.inv(self.numbers@)
    }

    /// Changes the sorter to the selected algorithm and starts over from the
    /// numbers the run started from.
    pub fn switch_algorithm(&mut self)
        ensures
            final(self).wf(),
            final(self).sorter.algorithm() == old(self).selected,
            final(self).sorter.is_fresh(),
            final(self).selected == old(self).selected,
            final(self).state == State::Start,
            final(self).numbers@ == old(self).original_numbers@,
            final(self).original_numbers@ == old(self).original_numbers@,
    {
        self.sorter = AnySorter::of(self.selected);
        ButtonHandler::handle_reset(self);
    }

    /// Back to the start: the sorter is reset, the numbers stay as they are.
    pub fn reset(&mut self)
        ensures
            final(self).wf(),
            final(self).state == State::Start,
            final(self).sorter.is_fresh(),
            final(self).sorter.algorithm() == old(self).sorter.algorithm(),
            final(self).numbers@ == old(self).numbers@,
            final(self).original_numbers@ == old(self).original_numbers@,
            final(self).selected == old(self).selected,
            final(self).sorter.contents(final(self).numbers@) == final(self).numbers@.to_multiset(),
            final(self).sorter.special_spec() == (NO_INDEX, NO_INDEX),
    {
        self.state = State::Start;
        self.sorter.reset_state();
        proof {
            self.sorter.lemma_fresh(self.numbers@);
        }
    }
}

/// What the buttons of a front end do.
pub struct ButtonHandler;

impl ButtonHandler {
    /// If not finished, takes a single step of the selected algorithm; once
    /// the numbers are sorted, resets the sorter.
    pub fn handle_step(app: &mut Visualizer)
        requires
            old(app).wf(),
        ensures
            final(app).wf(),
            final(app).state != State::Finished,
            final(app).numbers@.len() == old(app).numbers@.len(),
            old(app).state != State::Finished ==> final(app).sorter.contents(final(app).numbers@)
                == old(app).sorter.contents(old(app).numbers@),
            final(app).original_numbers@ == old(app).original_numbers@,
            final(app).selected == old(app).selected,
            pair_fits(final(app).sorter.special_spec(), final(app).numbers@.len()),
            final(app).state == old(app).state || (final(app).state == State::Start
                && final(app).sorter.is_fresh()),
            old(app).state != State::Finished && final(app).state != old(app).state ==> sorted(
                final(app).numbers@,
            ),
            old(app).state == State::Finished ==> final(app).sorter.is_fresh()
                && final(app).numbers@ == old(app).numbers@,
            old(app).state != State::Finished ==> exists|next: AnySorter, done: bool|
                #[trigger] old(app).sorter.took_step(
                    &next,
                    old(app).numbers@,
                    final(app).numbers@,
                    done,
                ) && (done ==> final(app).state == State::Start && final(app).sorter.is_fresh()
                    && final(app).sorter.algorithm() == old(app).sorter.algorithm()) && (!done
                    ==> final(app).sorter == next && final(app).state == old(app).state),
    {
        let ghost s0 = app.sorter;
        let ghost a0 = app.numbers@;
        let ghost mut s1 = app.sorter;
        let ghost mut stepped = false;
        if app.state != State::Finished {
            let done = app.sorter.step(&mut app.numbers);
            proof {
                s1 = app.sorter;
                stepped = done;
            }
            if done {
                app.state = State::Finished;
            }
        }
        if app.state == State::Finished {
            app.reset();
        }
        proof {
            if old(app).state != State::Finished {
                assert(s0.took_step(&s1, a0, app.numbers@, stepped));
            }
        }
    }

    /// Resets the sorter and puts the numbers back as they started.
    pub fn handle_reset(app: &mut Visualizer)
        ensures
            final(app).wf(),
            final(app).state == State::Start,
            final(app).sorter.is_fresh(),
            final(app).sorter.algorithm() == old(app).sorter.algorithm(),
            final(app).numbers@ == old(app).original_numbers@,
            final(app).original_numbers@ == old(app).original_numbers@,
            final(app).selected == old(app).selected,
    {
        app.reset();
        app.numbers = app.original_numbers.clone();
        proof {
            app.sorter.lemma_fresh(app.numbers@);
        }
    }

    /// Resets the sorter and starts over from new random numbers.
    pub fn handle_shuffle(app: &mut Visualizer)
        ensures
            final(app).wf(),
            final(app).state == State::Start,
            final(app).sorter.is_fresh(),
            final(app).sorter.algorithm() == old(app).sorter.algorithm(),
            final(app).numbers@ == final(app).original_numbers@,
            final(app).numbers@.len() == VECTOR_SIZE,
            forall|i: int| 0 <= i < VECTOR_SIZE ==> FLOOR <= #[trigger] final(app).numbers@[i] < CEIL,
            final(app).selected == old(app).selected,
    {
        app.reset();
        app.numbers = gen_random_vector(FLOOR, CEIL, VECTOR_SIZE);
        app.original_numbers = app.numbers.clone();
        proof {
            app.sorter.lemma_fresh(app.numbers@);
        }
    }
}

} // verus!
