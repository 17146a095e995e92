//! Lazy iteration over Cartesian products.
//!
//! Every iterator in this crate is a mixed-radix odometer: one digit per
//! position of the yielded tuple, each digit an index into the source that
//! feeds its position. The arithmetic of such counters lives in
//! [`odometer`], the product as a sequence of tuples in [`tuples`]; the
//! iterators are proved to walk that sequence, one tuple per call.
//!
//! - [`ProductWithRepeat`] and [`Iter`]: tuples of a length chosen at run
//!   time, drawn from one collection.
//! - [`known_size`]: the same with the length fixed at compile time.
//! - [`product`] and [`Product`]: tuples with one element of each of several
//!   collections.

pub mod arrays;
pub mod known_size;
pub mod odometer;
pub mod tuples;

use crate::odometer::{
    advance, as_digits, lemma_rank_below_total, lemma_rank_of_zeros, lemma_rank_roundtrip,
    lemma_step_keeps_settled, lemma_step_without_digits, lemma_successor_counts,
    lemma_total_uniform, lemma_total_zero, overflows, rank, settled_digits, successor, total,
    uniform, valid_digits, zeros,
};
use crate::tuples::{radices_of, repeated, select, tuples};
use vstd::prelude::*;

verus! {

/// Create a Cartesian product of a given length from a given collection.
pub trait ProductWithRepeat<T> {
    /// The elements that the product draws from, in order.
    spec fn source(&self) -> Seq<T>;

    /// An iterator over all tuples of `repeat` elements of the collection,
    /// positioned before the first of them: all digits zero, not completed.
    fn product_with_repeat(&self, repeat: usize) -> (it: Iter<'_, T>)
        ensures
            it.source() == self.source(),
            it.digits() == zeros(repeat as nat),
            !it.completed(),
            it.yielded() == 0,
    ;
}

impl<T> ProductWithRepeat<T> for [T] {
    open spec fn source(&self) -> Seq<T> {
        self@
    }

    fn product_with_repeat(&self, repeat: usize) -> (it: Iter<'_, T>) {
        let state: Vec<usize> = vec![0; repeat];
        proof {
            let radices = uniform(self@.len(), repeat as nat);
            assert(as_digits(state@) == zeros(radices.len()));
            lemma_rank_of_zeros(radices);
            if !valid_digits(zeros(radices.len()), radices) {
                assert(radices[0] == 0);
                lemma_total_zero(radices);
            }
        }
        Iter { items: self, state, completed: false }
    }
}

/// Iterator for the Cartesian product of a collection with itself.
pub struct Iter<'a, T> {
    /// The items used for the product.
    items: &'a [T],
    /// The index into `items` of each position of the next tuple.
    state: Vec<usize>,
    /// Whether all tuples have been yielded.
    completed: bool,
}

impl<'a, T> Iter<'a, T> {
    /// The elements that the product draws from.
    pub closed spec fn source(&self) -> Seq<T> {
        self.items@
    }

    /// The digits of the odometer: for each position of the next tuple, the
    /// index of its element in the source.
    pub closed spec fn digits(&self) -> Seq<nat> {
        as_digits(self.state@)
    }

    /// The completion flag: set by the step that carries out of the first
    /// position, and never cleared.
    pub closed spec fn completed(&self) -> bool {
        self.completed
    }

    /// The length of the yielded tuples.
    pub open spec fn repeat(&self) -> nat {
        self.digits().len()
    }

    /// The radix of each position: the number of elements of the source.
    pub open spec fn radices(&self) -> Seq<nat> {
        uniform(self.source().len(), self.repeat())
    }

    /// The whole sequence of tuples that the iterator yields, from its
    /// construction to its exhaustion.
    pub open spec fn sequence(&self) -> Seq<Seq<T>> {
        tuples(repeated(self.source(), self.repeat()))
    }

    /// How many tuples of the sequence have been yielded so far: the number
    /// that the digits denote, or all of them once the iterator has
    /// completed or where the digits select no tuple.
    pub open spec fn yielded(&self) -> nat {
        if !self.completed() && valid_digits(self.digits(), self.radices()) {
            rank(self.digits(), self.radices())
        } else {
            total(self.radices())
        }
    }

    /// Whether every tuple of the sequence has been yielded.
    pub open spec fn exhausted(&self) -> bool {
        self.yielded() == self.sequence().len()
    }

    /// No more tuples are yielded than the sequence has.
    pub proof fn lemma_yielded_in_bounds(&self)
        ensures
            self.yielded() <= self.sequence().len(),
    {
        assert(radices_of(repeated(self.source(), self.repeat())) == self.radices());
        if !self.completed() && valid_digits(self.digits(), self.radices()) {
            lemma_rank_below_total(self.digits(), self.radices());
        }
    }

    /// Iterating again yields the same tuples in the same order: what an
    /// iterator yields depends on nothing but the source and the length of
    /// the tuples.
    pub proof fn lemma_sequence_repeatable(&self, other: &Self)
        requires
            self.source() == other.source(),
            self.repeat() == other.repeat(),
        ensures
            self.sequence() == other.sequence(),
    {
    }

    #[verifier::type_invariant]
    spec fn well_formed(&self) -> bool {
        settled_digits(as_digits(self.state@), uniform(self.items@.len(), self.state@.len()))
    }

    /// Advance the digits by one step of the odometer, and set the
    /// completion flag when the step carries out of the first position.
    ///
    /// Over an empty source no digit can grow: the step then carries out at
    /// once and leaves the digits at zero. A flag that is set stays set.
    fn increment_state(&mut self)
        ensures
            final(self).source() == old(self).source(),
            final(self).repeat() == old(self).repeat(),
            final(self).digits() == successor(old(self).digits(), old(self).radices()),
            final(self).completed() == (old(self).completed() || overflows(
                old(self).digits(),
                old(self).radices(),
            )),
            total(old(self).radices()) == 0 ==> final(self).digits() == old(self).digits()
                && final(self).completed(),
    {
        let radix = self.items.len();
        let ghost radices = self.radices();
        let ghost before = self.digits();
        proof {
            use_type_invariant(&*self);
            lemma_total_uniform(radix as nat, before.len());
            if total(radices) > 0 {
                lemma_step_keeps_settled(before, radices);
            } else {
                lemma_total_zero(radices);
                assert(radix == 0 && before == zeros(before.len()));
                lemma_step_without_digits(before.len());
            }
        }
        let radix_at = |i: usize| -> (r: usize)
            ensures
                r == radix,
            { radix };
        // The digits are taken out while they change: in place, every
        // single write would have to be shown to keep the type invariant.
        let mut state: Vec<usize> = Vec::new();
        std::mem::swap(&mut self.state, &mut state);
        let carry = advance(state.as_mut_slice(), Ghost(radices), radix_at);
        self.state = state;
        self.completed = self.completed || carry;
    }

    /// The next tuple of the product, or `None` once all have been yielded.
    ///
    /// The tuple is read off the digits, which then advance by one step.
    /// Over an empty source with a positive tuple length there is nothing to
    /// read: the step alone is taken, which completes the iterator. A
    /// completed iterator is left as it is.
    pub fn next(&mut self) -> (item: Option<Vec<&'a T>>)
        ensures
            final(self).source() == old(self).source(),
            final(self).repeat() == old(self).repeat(),
            item is None <==> old(self).exhausted(),
            old(self).completed() ==> {
                &&& item is None
                &&& final(self).completed()
                &&& final(self).digits() == old(self).digits()
            },
            item is None ==> {
                &&& final(self).digits() == old(self).digits()
                &&& final(self).completed()
            },
            item matches Some(tuple) ==> {
                &&& tuple@.unref() == old(self).sequence()[old(self).yielded() as int]
                &&& final(self).digits() == successor(old(self).digits(), old(self).radices())
                &&& final(self).completed() == overflows(old(self).digits(), old(self).radices())
                &&& final(self).yielded() == old(self).yielded() + 1
            },
            old(self).exhausted() ==> final(self).exhausted(),
            !old(self).completed() && final(self).completed() ==> final(self).digits() == zeros(
                old(self).repeat(),
            ),
    {
        proof {
            use_type_invariant(&*self);
            assert(radices_of(repeated(self.source(), self.repeat())) == self.radices());
            lemma_total_uniform(self.source().len(), self.repeat());
        }
        if self.completed {
            return None;
        }
        let items: &'a [T] = self.items;
        if items.len() == 0 && self.state.len() > 0 {
            proof {
                assert(self.radices()[0] == 0);
                lemma_total_zero(self.radices());
                assert(!(self.digits()[0] < self.radices()[0]));
            }
            self.increment_state();
            return None;
        }
        let ghost sources = repeated(self.source(), self.repeat());
        let ghost digits = self.digits();
        proof {
            if items.len() == 0 {
                assert(total(self.radices()) > 0) by {
                    reveal_with_fuel(total, 1);
                }
            } else {
                lemma_total_zero(self.radices());
            }
            lemma_step_keeps_settled(digits, self.radices());
            lemma_rank_below_total(digits, self.radices());
            lemma_rank_roundtrip(digits, self.radices());
            lemma_successor_counts(digits, self.radices());
        }
        let mut item: Vec<&'a T> = Vec::with_capacity(self.item_len());
        for i in 0..self.state.len()
            invariant
                items@ == self.items@,
                sources == repeated(items@, self.state@.len()),
                digits == as_digits(self.state@),
                valid_digits(digits, self.radices()),
                item@.len() == i,
                item@.unref() == select(sources, digits).take(i as int),
        {
            assert(digits[i as int] < self.radices()[i as int]);
            item.push(&items[self.state[i]]);
        }
        assert(item@.unref() == select(sources, digits));
        self.increment_state();
        Some(item)
    }

    /// The length of the yielded tuples.
    pub fn item_len(&self) -> (len: usize)
        ensures
            len == self.repeat(),
    {
        self.state.len()
    }
}

/// What each of the borrowed sources holds.
pub open spec fn contents<T>(items: Seq<&[T]>) -> Seq<Seq<T>> {
    Seq::new(items.len(), |i: int| items[i]@)
}

/// Generate the Cartesian product of `N_ITS` collections.
///
/// The resulting iterator yields arrays with one element of each
/// collection, in the order of the collections, and is positioned before
/// the first of them: all digits zero, not completed.
pub fn product<'a, T, const N_ITS: usize>(items: [&'a [T]; N_ITS]) -> (it: Product<'a, T, N_ITS>)
    ensures
        it.sources() == contents(items@),
        it.digits() == zeros(N_ITS as nat),
        !it.completed(),
        it.yielded() == 0,
{
    let state: [usize; N_ITS] = [0; N_ITS];
    proof {
        let radices = radices_of(contents(items@));
        assert(as_digits(state@) == zeros(radices.len()));
        lemma_rank_of_zeros(radices);
        if !valid_digits(zeros(radices.len()), radices) {
            let i = choose|i: int| 0 <= i < N_ITS && !(zeros(radices.len())[i] < radices[i]);
            assert(radices[i] == 0);
            lemma_total_zero(radices);
        }
    }
    Product { items, state, completed: false }
}

/// Iterator over the Cartesian product of several collections.
///
/// Created by the [`product`] function.
pub struct Product<'a, T, const N_ITS: usize> {
    /// The collections whose product is walked.
    items: [&'a [T]; N_ITS],
    /// The index into its collection of each position of the next tuple.
    state: [usize; N_ITS],
    /// Whether all tuples have been yielded.
    completed: bool,
}

impl<'a, T, const N_ITS: usize> Product<'a, T, N_ITS> {
    /// What the collections hold, in the order of the tuple's positions.
    pub closed spec fn sources(&self) -> Seq<Seq<T>> {
        contents(self.items@)
    }

    /// The digits of the odometer: for each position of the next tuple, the
    /// index of its element in its collection.
    pub closed spec fn digits(&self) -> Seq<nat> {
        as_digits(self.state@)
    }

    /// The completion flag: set by the step that carries out of the first
    /// position, and never cleared.
    pub closed spec fn completed(&self) -> bool {
        self.completed
    }

    /// The radix of each position: the number of elements of its source.
    pub open spec fn radices(&self) -> Seq<nat> {
        radices_of(self.sources())
    }

    /// The whole sequence of tuples that the iterator yields, from its
    /// construction to its exhaustion.
    pub open spec fn sequence(&self) -> Seq<Seq<T>> {
        tuples(self.sources())
    }

    /// How many tuples of the sequence have been yielded so far: the number
    /// that the digits denote, or all of them once the iterator has
    /// completed or where the digits select no tuple.
    pub open spec fn yielded(&self) -> nat {
        if !self.completed() && valid_digits(self.digits(), self.radices()) {
            rank(self.digits(), self.radices())
        } else {
            total(self.radices())
        }
    }

    /// There is one digit for each collection.
    pub proof fn lemma_digits_len(&self)
        ensures
            self.digits().len() == N_ITS,
    {
    }

    /// Whether every tuple of the sequence has been yielded.
    pub open spec fn exhausted(&self) -> bool {
        self.yielded() == self.sequence().len()
    }

    /// No more tuples are yielded than the sequence has.
    pub proof fn lemma_yielded_in_bounds(&self)
        ensures
            self.yielded() <= self.sequence().len(),
    {
        if !self.completed() && valid_digits(self.digits(), self.radices()) {
            lemma_rank_below_total(self.digits(), self.radices());
        }
    }

    /// Iterating again yields the same tuples in the same order: what an
    /// iterator yields depends on nothing but the sources.
    pub proof fn lemma_sequence_repeatable(&self, other: &Self)
        requires
            self.sources() == other.sources(),
        ensures
            self.sequence() == other.sequence(),
    {
    }

    #[verifier::type_invariant]
    spec fn well_formed(&self) -> bool {
        settled_digits(as_digits(self.state@), radices_of(contents(self.items@)))
    }

    /// The next tuple of the product, or `None` once all have been yielded.
    ///
    /// The tuple is read off the digits, which then advance by one step.
    /// Where some collection is empty there is nothing to read: the step
    /// alone is taken, which completes the iterator. A completed iterator is
    /// left as it is.
    pub fn next(&mut self) -> (item: Option<[&'a T; N_ITS]>)
        ensures
            final(self).sources() == old(self).sources(),
            item is None <==> old(self).exhausted(),
            old(self).completed() ==> {
                &&& item is None
                &&& final(self).completed()
                &&& final(self).digits() == old(self).digits()
            },
            item is None ==> {
                &&& final(self).digits() == old(self).digits()
                &&& final(self).completed()
            },
            item matches Some(tuple) ==> {
                &&& tuple@.unref() == old(self).sequence()[old(self).yielded() as int]
                &&& final(self).digits() == successor(old(self).digits(), old(self).radices())
                &&& final(self).completed() == overflows(old(self).digits(), old(self).radices())
                &&& final(self).yielded() == old(self).yielded() + 1
            },
            old(self).exhausted() ==> final(self).exhausted(),
            !old(self).completed() && final(self).completed() ==> final(self).digits() == zeros(
                N_ITS as nat,
            ),
    {
        proof {
            use_type_invariant(&*self);
        }
        if self.completed {
            return None;
        }
        let ghost digits = self.digits();
        if self.has_empty_source() {
            proof {
                lemma_total_zero(self.radices());
                if valid_digits(digits, self.radices()) {
                    lemma_rank_below_total(digits, self.radices());
                }
            }
            self.increment_state();
            return None;
        }
        let ghost sources = self.sources();
        proof {
            lemma_step_keeps_settled(digits, self.radices());
            lemma_rank_below_total(digits, self.radices());
            lemma_rank_roundtrip(digits, self.radices());
            lemma_successor_counts(digits, self.radices());
            assert forall|i: int| 0 <= i < N_ITS implies self.state@[i] < self.items@[i]@.len() by {
                assert(digits[i] < self.radices()[i]);
            }
        }
        let items = self.items;
        let state = self.state;
        let ghost picks = select(sources, digits);
        let item: [&'a T; N_ITS] = core::array::from_fn(
            |i: usize| -> (element: &'a T)
                requires
                    i < N_ITS,
                ensures
                    *element == picks[i as int],
                { &items[i][state[i]] }
        );
        assert(item@.unref() == picks);
        self.increment_state();
        Some(item)
    }

    /// Advance the digits by one step of the odometer, each position
    /// counting up to the length of its own collection, and set the
    /// completion flag when the step carries out of the first position.
    ///
    /// Where some collection is empty the product has no tuple to step to:
    /// the step then completes the iterator and leaves the digits at zero.
    /// A flag that is set stays set.
    fn increment_state(&mut self)
        ensures
            final(self).sources() == old(self).sources(),
            total(old(self).radices()) == 0 ==> final(self).digits() == old(self).digits()
                && final(self).completed(),
            total(old(self).radices()) > 0 ==> {
                &&& final(self).digits() == successor(old(self).digits(), old(self).radices())
                &&& final(self).completed() == (old(self).completed() || overflows(
                    old(self).digits(),
                    old(self).radices(),
                ))
            },
    {
        proof {
            use_type_invariant(&*self);
        }
        if self.has_empty_source() {
            self.completed = true;
            return;
        }
        let ghost radices = self.radices();
        proof {
            lemma_step_keeps_settled(self.digits(), radices);
        }
        let items = self.items;
        let radix_at = |i: usize| -> (r: usize)
            requires
                i < N_ITS,
            ensures
                r == items@[i as int]@.len(),
            { items[i].len() };
        let mut state = self.state;
        let carry = advance(&mut state, Ghost(radices), radix_at);
        self.state = state;
        self.completed = self.completed || carry;
    }

    /// Whether some collection is empty, so that the product has no tuple.
    fn has_empty_source(&self) -> (empty: bool)
        ensures
            empty == (total(self.radices()) == 0),
    {
        let mut i: usize = 0;
        while i < N_ITS
            invariant
                0 <= i <= N_ITS,
                forall|j: int| 0 <= j < i ==> self.radices()[j] != 0,
            decreases N_ITS - i,
        {
            if self.items[i].len() == 0 {
                proof {
                    assert(self.radices()[i as int] == 0);
                    lemma_total_zero(self.radices());
                }
                return true;
            }
            i += 1;
        }
        proof {
            lemma_total_zero(self.radices());
        }
        false
    }
}

} // verus!
