//! The Cartesian product of a collection with itself where the length of
//! the tuples is known at compile time: digits and tuples are arrays.

use crate::odometer::{
    advance, as_digits, lemma_rank_below_total, lemma_rank_of_zeros, lemma_rank_roundtrip,
    lemma_step_keeps_settled, lemma_step_without_digits, lemma_successor_counts,
    lemma_total_uniform, lemma_total_zero, overflows, rank, settled_digits, successor, total,
    uniform, valid_digits, zeros,
};
use crate::tuples::{radices_of, repeated, select, tuples};
use vstd::prelude::*;

verus! {

/// Create a Cartesian product of a given length from a given collection.
pub trait ProductWithRepeat<T> {
    /// The elements that the product draws from, in order.
    spec fn source(&self) -> Seq<T>;

    /// An iterator over all tuples of `REPEAT` elements of the collection,
    /// positioned before the first of them: all digits zero, not completed.
    fn product_with_repeat<const REPEAT: usize>(&self) -> (it: Iter<'_, T, REPEAT>)
        ensures
            it.source() == self.source(),
            it.digits() == zeros(REPEAT as nat),
            !it.completed(),
            it.yielded() == 0,
    ;
}

impl<T> ProductWithRepeat<T> for [T] {
    open spec fn source(&self) -> Seq<T> {
        self@
    }

    fn product_with_repeat<const REPEAT: usize>(&self) -> (it: Iter<'_, T, REPEAT>) {
        let state: [usize; REPEAT] = [0; REPEAT];
        proof {
            let radices = uniform(self@.len(), REPEAT as nat);
            assert(as_digits(state@) == zeros(radices.len()));
            lemma_rank_of_zeros(radices);
            if !valid_digits(zeros(radices.len()), radices) {
                assert(radices[0] == 0);
                lemma_total_zero(radices);
            }
        }
        Iter { items: self, state, completed: false }
    }
}

/// Iterator for the Cartesian product of a collection with itself.
pub struct Iter<'a, T, const REPEAT: usize> {
    /// The items used for the product.
    items: &'a [T],
    /// The index into `items` of each position of the next tuple.
    state: [usize; REPEAT],
    /// Whether all tuples have been yielded.
    completed: bool,
}

impl<'a, T, const REPEAT: usize> Iter<'a, T, REPEAT> {
    /// The elements that the product draws from.
    pub closed spec fn source(&self) -> Seq<T> {
        self.items@
    }

    /// The digits of the odometer: for each position of the next tuple, the
    /// index of its element in the source.
    pub closed spec fn digits(&self) -> Seq<nat> {
        as_digits(self.state@)
    }

    /// The completion flag: set by the step that carries out of the first
    /// position, and never cleared.
    pub closed spec fn completed(&self) -> bool {
        self.completed
    }

    /// The length of the yielded tuples.
    pub open spec fn repeat(&self) -> nat {
        REPEAT as nat
    }

    /// The radix of each position: the number of elements of the source.
    pub open spec fn radices(&self) -> Seq<nat> {
        uniform(self.source().len(), self.repeat())
    }

    /// The whole sequence of tuples that the iterator yields, from its
    /// construction to its exhaustion.
    pub open spec fn sequence(&self) -> Seq<Seq<T>> {
        tuples(repeated(self.source(), self.repeat()))
    }

    /// How many tuples of the sequence have been yielded so far: the number
    /// that the digits denote, or all of them once the iterator has
    /// completed or where the digits select no tuple.
    pub open spec fn yielded(&self) -> nat {
        if !self.completed() && valid_digits(self.digits(), self.radices()) {
            rank(self.digits(), self.radices())
        } else {
            total(self.radices())
        }
    }

    /// There is one digit for each position of the tuples.
    pub proof fn lemma_digits_len(&self)
        ensures
            self.digits().len() == REPEAT,
    {
    }

    /// Whether every tuple of the sequence has been yielded.
    pub open spec fn exhausted(&self) -> bool {
        self.yielded() == self.sequence().len()
    }

    /// No more tuples are yielded than the sequence has.
    pub proof fn lemma_yielded_in_bounds(&self)
        ensures
            self.yielded() <= self.sequence().len(),
    {
        assert(radices_of(repeated(self.source(), self.repeat())) == self.radices());
        if !self.completed() && valid_digits(self.digits(), self.radices()) {
            lemma_rank_below_total(self.digits(), self.radices());
        }
    }

    /// Iterating again yields the same tuples in the same order: what an
    /// iterator yields depends on nothing but the source and the length of
    /// the tuples.
    pub proof fn lemma_sequence_repeatable(&self, other: &Self)
        requires
            self.source() == other.source(),
        ensures
            self.sequence() == other.sequence(),
    {
    }

    /// The iterator yields what the iterator with a tuple length chosen at
    /// run time yields over the same source for the same length.
    pub proof fn lemma_same_as_runtime_length(&self, other: &crate::Iter<'a, T>)
        requires
            self.source() == other.source(),
            self.repeat() == other.repeat(),
        ensures
            self.sequence() == other.sequence(),
    {
    }

    #[verifier::type_invariant]
    spec fn well_formed(&self) -> bool {
        settled_digits(as_digits(self.state@), uniform(self.items@.len(), REPEAT as nat))
    }

    /// The next tuple of the product, or `None` once all have been yielded.
    ///
    /// The tuple is read off the digits, which then advance by one step.
    /// Over an empty source with a positive tuple length there is nothing to
    /// read: the step alone is taken, which completes the iterator. A
    /// completed iterator is left as it is.
    pub fn next(&mut self) -> (item: Option<[&'a T; REPEAT]>)
        ensures
            final(self).source() == old(self).source(),
            item is None <==> old(self).exhausted(),
            old(self).completed() ==> {
                &&& item is None
                &&& final(self).completed()
                &&& final(self).digits() == old(self).digits()
            },
            item is None ==> {
                &&& final(self).digits() == old(self).digits()
                &&& final(self).completed()
            },
            item matches Some(tuple) ==> {
                &&& tuple@.unref() == old(self).sequence()[old(self).yielded() as int]
                &&& final(self).digits() == successor(old(self).digits(), old(self).radices())
                &&& final(self).completed() == overflows(old(self).digits(), old(self).radices())
                &&& final(self).yielded() == old(self).yielded() + 1
            },
            old(self).exhausted() ==> final(self).exhausted(),
            !old(self).completed() && final(self).completed() ==> final(self).digits() == zeros(
                REPEAT as nat,
            ),
    {
        proof {
            use_type_invariant(&*self);
            assert(radices_of(repeated(self.source(), self.repeat())) == self.radices());
            lemma_total_uniform(self.source().len(), self.repeat());
        }
        if self.completed {
            return None;
        }
        let items: &'a [T] = self.items;
        if items.len() == 0 && REPEAT > 0 {
            proof {
                assert(self.radices()[0] == 0);
                lemma_total_zero(self.radices());
                assert(!(self.digits()[0] < self.radices()[0]));
            }
            self.increment_state();
            return None;
        }
        let ghost sources = repeated(self.source(), self.repeat());
        let ghost digits = self.digits();
        proof {
            if items.len() == 0 {
                assert(total(self.radices()) > 0) by {
                    reveal_with_fuel(total, 1);
                }
            } else {
                lemma_total_zero(self.radices());
            }
            lemma_step_keeps_settled(digits, self.radices());
            lemma_rank_below_total(digits, self.radices());
            lemma_rank_roundtrip(digits, self.radices());
            lemma_successor_counts(digits, self.radices());
            assert forall|i: int| 0 <= i < REPEAT implies self.state@[i] < items@.len() by {
                assert(digits[i] < self.radices()[i]);
            }
        }
        let state = self.state;
        let ghost picks = select(sources, digits);
        let item: [&'a T; REPEAT] = core::array::from_fn(
            |i: usize| -> (element: &'a T)
                requires
                    i < REPEAT,
                ensures
                    *element == picks[i as int],
                { &items[state[i]] }
        );
        assert(item@.unref() == picks);
        self.increment_state();
        Some(item)
    }

    /// Advance the digits by one step of the odometer, and set the
    /// completion flag when the step carries out of the first position.
    ///
    /// Over an empty source no digit can grow: the step then carries out at
    /// once and leaves the digits at zero. A flag that is set stays set.
    fn increment_state(&mut self)
        ensures
            final(self).source() == old(self).source(),
            final(self).digits() == successor(old(self).digits(), old(self).radices()),
            final(self).completed() == (old(self).completed() || overflows(
                old(self).digits(),
                old(self).radices(),
            )),
            total(old(self).radices()) == 0 ==> final(self).digits() == old(self).digits()
                && final(self).completed(),
    {
        let radix = self.items.len();
        let ghost radices = self.radices();
        let ghost before = self.digits();
        proof {
            use_type_invariant(&*self);
            lemma_total_uniform(radix as nat, before.len());
            if total(radices) > 0 {
                lemma_step_keeps_settled(before, radices);
            } else {
                lemma_total_zero(radices);
                assert(radix == 0 && before == zeros(before.len()));
                lemma_step_without_digits(before.len());
            }
        }
        let radix_at = |i: usize| -> (r: usize)
            ensures
                r == radix,
            { radix };
        let mut state = self.state;
        let carry = advance(&mut state, Ghost(radices), radix_at);
        self.state = state;
        self.completed = self.completed || carry;
    }
}

} // verus!
