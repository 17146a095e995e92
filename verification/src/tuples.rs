//! The Cartesian product as a sequence of tuples.
//!
//! A product draws position `i` of every tuple from source `i`. Its tuples
//! are numbered from zero; tuple `n` is selected by the digits of `n` in the
//! odometer whose radices are the lengths of the sources.

use crate::odometer::{
    digits_of, lemma_digits_of_roundtrip, lemma_total_uniform, lemma_total_zero, total, uniform,
};
use vstd::arithmetic::power::{lemma_pow0, lemma0_pow, pow};
use vstd::prelude::*;

verus! {

/// The lengths of the sources: the radices of the odometer that walks
/// their product.
pub open spec fn radices_of<T>(sources: Seq<Seq<T>>) -> Seq<nat> {
    Seq::new(sources.len(), |i: int| sources[i].len())
}

/// The sources of a product that draws every position from one `source`.
pub open spec fn repeated<T>(source: Seq<T>, count: nat) -> Seq<Seq<T>> {
    Seq::new(count, |i: int| source)
}

/// The tuple that the digits select: position `i` holds the element of
/// source `i` at index `digits[i]`.
pub open spec fn select<T>(sources: Seq<Seq<T>>, digits: Seq<nat>) -> Seq<T> {
    Seq::new(sources.len(), |i: int| sources[i][digits[i] as int])
}

/// The `n`-th tuple of the Cartesian product of the sources, counting from
/// zero in lexicographic order of the indices.
pub open spec fn tuple_at<T>(sources: Seq<Seq<T>>, n: nat) -> Seq<T> {
    select(sources, digits_of(n, radices_of(sources)))
}

/// The Cartesian product of the sources: all its tuples, in lexicographic
/// order of the indices.
pub open spec fn tuples<T>(sources: Seq<Seq<T>>) -> Seq<Seq<T>> {
    Seq::new(total(radices_of(sources)), |n: int| tuple_at(sources, n as nat))
}

/// A product has as many tuples as the lengths of its sources multiply to,
/// and none at all exactly when some source is empty.
pub proof fn lemma_tuples_len<T>(sources: Seq<Seq<T>>)
    ensures
        tuples(sources).len() == total(radices_of(sources)),
        tuples(sources).len() == 0 <==> exists|i: int|
            0 <= i < sources.len() && #[trigger] sources[i].len() == 0,
{
    let radices = radices_of(sources);
    lemma_total_zero(radices);
    if exists|i: int| 0 <= i < sources.len() && #[trigger] sources[i].len() == 0 {
        let i = choose|i: int| 0 <= i < sources.len() && #[trigger] sources[i].len() == 0;
        assert(radices[i] == 0);
    }
}

/// The product of a source with itself `count` times has as many tuples as
/// the length of the source raised to the power `count`: one, the empty
/// tuple, when `count` is zero, and otherwise none when the source is empty.
pub proof fn lemma_repeated_tuples_len<T>(source: Seq<T>, count: nat)
    ensures
        tuples(repeated(source, count)).len() == pow(source.len() as int, count),
        count == 0 ==> tuples(repeated(source, count)).len() == 1,
        count > 0 && source.len() == 0 ==> tuples(repeated(source, count)).len() == 0,
{
    assert(radices_of(repeated(source, count)) == uniform(source.len(), count));
    lemma_total_uniform(source.len(), count);
    lemma_pow0(source.len() as int);
    if count > 0 {
        lemma0_pow(count);
    }
}

/// Every tuple of a product has one element of each source, in the order of
/// the sources.
pub proof fn lemma_tuple_draws_from_sources<T>(sources: Seq<Seq<T>>, n: nat)
    requires
        n < tuples(sources).len(),
    ensures
        tuples(sources)[n as int].len() == sources.len(),
        forall|i: int|
            0 <= i < sources.len() ==> sources[i].contains(#[trigger] tuples(sources)[n as int][i]),
{
    let radices = radices_of(sources);
    let digits = digits_of(n, radices);
    lemma_digits_of_roundtrip(n, radices);
    assert forall|i: int| 0 <= i < sources.len() implies sources[i].contains(
        #[trigger] tuples(sources)[n as int][i],
    ) by {
        assert(digits[i] < radices[i]);
        assert(sources[i][digits[i] as int] == tuples(sources)[n as int][i]);
    }
}

} // verus!
