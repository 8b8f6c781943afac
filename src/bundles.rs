//! The numbers on display with the highlight of each one.
use vstd::prelude::*;

verus! {

/// How a number is highlighted.
#[derive(PartialEq, Eq, Structural, PartialOrd, Ord, Default, Clone, Copy, Debug)]
pub enum Options {
    #[default]
    Default,
    Comparing,
    Switching,
}

/// Numbers with one highlight option each, and the two indexes that are
/// highlighted now (`usize::MAX` for none).
#[derive(PartialEq, PartialOrd)]
pub struct Bundle {
    numbers: Vec<u32>,
    options: Vec<Options>,
    indexes: (usize, usize),
}

impl Bundle {
    pub closed spec fn numbers_view(&self) -> Seq<u32> {
        self.numbers@
    }

    pub closed spec fn options_view(&self) -> Seq<Options> {
        self.options@
    }

    pub closed spec fn indexes_view(&self) -> (usize, usize) {
        self.indexes
    }

    /// Each highlighted index is "none" or a valid index of `options`.
    pub open spec fn wf(&self) -> bool {
        let (a, b) = self.indexes_view();
        &&& (a == usize::MAX || a < self.options_view().len())
        &&& (b == usize::MAX || b < self.options_view().len())
    }

    /// `o` with the highlighted indexes `ix` set back to `Default`.
    pub open spec fn cleared(o: Seq<Options>, ix: (usize, usize)) -> Seq<Options> {
        let o1 = if ix.0 != usize::MAX { o.update(ix.0 as int, Options::Default) } else { o };
        if ix.1 != usize::MAX { o1.update(ix.1 as int, Options::Default) } else { o1 }
    }

    pub fn new(numbers: Vec<u32>, options: Vec<Options>) -> (r: Bundle)
        requires
            numbers@.len() == options@.len(),
        ensures
            r.wf(),
            r.numbers_view() == numbers@,
            r.options_view() == options@,
            r.indexes_view() == (usize::MAX, usize::MAX),
    {
        Bundle { numbers, options, indexes: (usize::MAX, usize::MAX) }
    }

    /// Sets the options of the highlighted indexes back to `Default`.
    pub fn reset_options(&mut self)
        requires
            old(self).wf(),
        ensures
            final(self).wf(),
            final(self).options_view() == Self::cleared(
                old(self).options_view(),
                old(self).indexes_view(),
            ),
            final(self).numbers_view() == old(self).numbers_view(),
            final(self).indexes_view() == old(self).indexes_view(),
    {
        let (a, b) = (self.indexes.0, self.indexes.1);
        if a != usize::MAX {
            self.options[a] = Options::Default;
        }
        if b != usize::MAX {
            self.options[b] = Options::Default;
        }
    }

    pub fn clear_indexes(&mut self)
        ensures
            final(self).wf(),
            final(self).indexes_view() == (usize::MAX, usize::MAX),
            final(self).numbers_view() == old(self).numbers_view(),
            final(self).options_view() == old(self).options_view(),
    {
        self.indexes = (usize::MAX, usize::MAX);
    }

    pub fn numbers(&self) -> (r: &[u32])
        ensures
            r@ == self.numbers_view(),
    {
        self.numbers.as_slice()
    }

    pub fn options(&self) -> (r: &[Options])
        ensures
            r@ == self.options_view(),
    {
        self.options.as_slice()
    }

    pub fn set_numbers(&mut self, numbers: Vec<u32>)
        ensures
            final(self).numbers_view() == numbers@,
            final(self).options_view() == old(self).options_view(),
            final(self).indexes_view() == old(self).indexes_view(),
    {
        self.numbers = numbers;
    }

    pub fn numbers_mut(&mut self) -> (r: &mut Vec<u32>)
        ensures
            r@ == old(self).numbers_view(),
            final(self).numbers_view() == final(r)@,
            final(self).options_view() == old(self).options_view(),
            final(self).indexes_view() == old(self).indexes_view(),
    {
        &mut self.numbers
    }

    /// Clears the last highlighted indexes and highlights `a` and `b` as
    /// being compared.
    pub fn set_comparing(&mut self, pair: (usize, usize))
        requires
            old(self).wf(),
            pair.0 < old(self).options_view().len(),
            pair.1 < old(self).options_view().len(),
        ensures
            final(self).wf(),
            final(self).indexes_view() == pair,
            final(self).options_view() == Self::cleared(
                old(self).options_view(),
                old(self).indexes_view(),
            ).update(pair.0 as int, Options::Comparing).update(pair.1 as int, Options::Comparing),
            final(self).numbers_view() == old(self).numbers_view(),
    {
        let (a, b) = pair;
        self.reset_options();
        self.indexes.0 = a;
        self.indexes.1 = b;
        self.options[a] = Options::Comparing;
        self.options[b] = Options::Comparing;
    }

    /// Clears the last highlighted indexes and highlights `a` and `b` as
    /// being switched.
    pub fn set_switching(&mut self, pair: (usize, usize))
        requires
            old(self).wf(),
            pair.0 < old(self).options_view().len(),
            pair.1 < old(self).options_view().len(),
        ensures
            final(self).wf(),
            final(self).indexes_view() == pair,
            final(self).options_view() == Self::cleared(
                old(self).options_view(),
                old(self).indexes_view(),
            ).update(pair.0 as int, Options::Switching).update(pair.1 as int, Options::Switching),
            final(self).numbers_view() == old(self).numbers_view(),
    {
        let (a, b) = pair;
        self.reset_options();
        self.indexes.0 = a;
        self.indexes.1 = b;
        self.options[a] = Options::Switching;
        self.options[b] = Options::Switching;
    }

    /// True when no pair is highlighted.
    pub fn all_default(&self) -> (r: bool)
        ensures
            r == (self.indexes_view().0 == usize::MAX || self.indexes_view().1 == usize::MAX),
    {
        self.indexes.0 == usize::MAX || self.indexes.1 == usize::MAX
    }

    pub fn indexes(&self) -> (r: (usize, usize))
        ensures
            r == self.indexes_view(),
    {
        self.indexes
    }
}

} // verus!
