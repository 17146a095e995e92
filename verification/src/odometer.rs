//! The mathematics of a mixed-radix odometer.
//!
//! An odometer has one digit per position; the digit at position `i` counts
//! in base `radices[i]`, and the last position is the least significant.
//! Counting from zero visits every digit vector exactly once, in
//! lexicographic order: the `n`-th vector visited is `digits_of(n, radices)`.

use vstd::arithmetic::power::pow;
use vstd::prelude::*;

verus! {

/// How many digit vectors an odometer with these radices has: the product
/// of the radices (1 for an odometer without positions).
pub open spec fn total(radices: Seq<nat>) -> nat
    decreases radices.len(),
{
    if radices.len() == 0 {
        1
    } else {
        total(radices.drop_last()) * radices.last()
    }
}

/// Every digit is a proper digit of its position.
pub open spec fn valid_digits(digits: Seq<nat>, radices: Seq<nat>) -> bool {
    &&& digits.len() == radices.len()
    &&& forall|i: int| 0 <= i < digits.len() ==> digits[i] < radices[i]
}

/// The number that a digit vector denotes, most significant digit first.
pub open spec fn rank(digits: Seq<nat>, radices: Seq<nat>) -> nat
    decreases digits.len(),
{
    if digits.len() == 0 {
        0
    } else {
        rank(digits.drop_last(), radices.drop_last()) * radices.last() + digits.last()
    }
}

/// The digit vector that denotes `n`: its mixed-radix representation.
pub open spec fn digits_of(n: nat, radices: Seq<nat>) -> Seq<nat>
    decreases radices.len(),
{
    if radices.len() == 0 {
        Seq::empty()
    } else {
        digits_of(n / radices.last(), radices.drop_last()).push(n % radices.last())
    }
}

/// The digits that a vector of machine indices stands for.
pub open spec fn as_digits(indices: Seq<usize>) -> Seq<nat> {
    Seq::new(indices.len(), |i: int| indices[i] as nat)
}

/// The position that one step of the odometer increments: the last one
/// whose digit can still grow, or -1 when every position is at its maximum.
pub open spec fn pivot(digits: Seq<nat>, radices: Seq<nat>) -> int
    decreases digits.len(),
{
    if digits.len() == 0 {
        -1
    } else if digits.last() + 1 < radices.last() {
        digits.len() - 1
    } else {
        pivot(digits.drop_last(), radices.drop_last())
    }
}

/// The digits after one step: the pivot grows by one and everything to its
/// right falls back to zero. Without a pivot all digits fall back to zero.
pub open spec fn successor(digits: Seq<nat>, radices: Seq<nat>) -> Seq<nat> {
    let p = pivot(digits, radices);
    Seq::new(
        digits.len(),
        |i: int|
            if i < p {
                digits[i]
            } else if i == p {
                digits[i] + 1
            } else {
                0
            },
    )
}

/// A step from these digits carries out of the most significant position.
pub open spec fn overflows(digits: Seq<nat>, radices: Seq<nat>) -> bool {
    pivot(digits, radices) < 0
}

/// `a` and `b` agree before position `k`, where `a` has the smaller digit.
pub open spec fn first_differ_at(a: Seq<nat>, b: Seq<nat>, k: int) -> bool {
    &&& 0 <= k < a.len()
    &&& k < b.len()
    &&& a.take(k) == b.take(k)
    &&& a[k] < b[k]
}

/// `a` comes before `b` in lexicographic order, most significant digit
/// first: where they first differ, `a` has the smaller digit.
pub open spec fn lex_less(a: Seq<nat>, b: Seq<nat>) -> bool {
    exists|k: int| first_differ_at(a, b, k)
}

/// A valid digit vector denotes a number below the total.
pub proof fn lemma_rank_below_total(digits: Seq<nat>, radices: Seq<nat>)
    requires
        valid_digits(digits, radices),
    ensures
        rank(digits, radices) < total(radices),
    decreases digits.len(),
{
    if digits.len() > 0 {
        let init = digits.drop_last();
        let bases = radices.drop_last();
        lemma_rank_below_total(init, bases);
        let r = rank(init, bases) as int;
        let t = total(bases) as int;
        let b = radices.last() as int;
        let d = digits.last() as int;
        assert(r * b + d < t * b) by (nonlinear_arith)
            requires
                0 <= r < t,
                0 <= d < b,
        ;
    }
}

/// The representation of a number below the total is a valid digit vector
/// that denotes that number.
pub proof fn lemma_digits_of_roundtrip(n: nat, radices: Seq<nat>)
    requires
        n < total(radices),
    ensures
        valid_digits(digits_of(n, radices), radices),
        rank(digits_of(n, radices), radices) == n,
    decreases radices.len(),
{
    if radices.len() > 0 {
        let bases = radices.drop_last();
        let b = radices.last() as int;
        let t = total(bases) as int;
        let q = n as int / b;
        let m = n as int % b;
        assert(b > 0) by (nonlinear_arith)
            requires
                0 <= n < t * b,
                0 <= t,
                0 <= b,
        ;
        assert(0 <= q < t && 0 <= m < b && q * b + m == n) by (nonlinear_arith)
            requires
                0 <= n < t * b,
                b > 0,
                q == n as int / b,
                m == n as int % b,
        ;
        lemma_digits_of_roundtrip(q as nat, bases);
        let digits = digits_of(n, radices);
        assert(digits.drop_last() == digits_of(q as nat, bases));
        assert(digits.last() == m);
    }
}

/// A valid digit vector is the representation of the number it denotes.
pub proof fn lemma_rank_roundtrip(digits: Seq<nat>, radices: Seq<nat>)
    requires
        valid_digits(digits, radices),
    ensures
        digits_of(rank(digits, radices), radices) == digits,
    decreases digits.len(),
{
    if digits.len() > 0 {
        let init = digits.drop_last();
        let bases = radices.drop_last();
        lemma_rank_roundtrip(init, bases);
        let r = rank(init, bases) as int;
        let b = radices.last() as int;
        let d = digits.last() as int;
        let n = rank(digits, radices) as int;
        assert(n / b == r && n % b == d) by (nonlinear_arith)
            requires
                n == r * b + d,
                0 <= d < b,
        ;
        assert(digits_of(n as nat, radices) == init.push(digits.last()));
        assert(init.push(digits.last()) == digits);
    } else {
        assert(digits == Seq::<nat>::empty());
    }
}

/// The pivot is the position `p` whenever `p`'s digit can grow and no digit
/// to its right can; it is -1 whenever no digit at all can grow.
pub proof fn lemma_pivot_is(digits: Seq<nat>, radices: Seq<nat>, p: int)
    requires
        digits.len() == radices.len(),
        -1 <= p < digits.len(),
        p >= 0 ==> digits[p] + 1 < radices[p],
        forall|j: int| p < j < digits.len() ==> digits[j] + 1 >= radices[j],
    ensures
        pivot(digits, radices) == p,
    decreases digits.len(),
{
    if digits.len() > 0 && p < digits.len() - 1 {
        lemma_pivot_is(digits.drop_last(), radices.drop_last(), p);
    }
}

/// The pivot is a position or -1, its digit can grow, and the digits to
/// its right cannot.
pub proof fn lemma_pivot_properties(digits: Seq<nat>, radices: Seq<nat>)
    requires
        digits.len() == radices.len(),
    ensures
        -1 <= pivot(digits, radices) < digits.len(),
        pivot(digits, radices) >= 0 ==> digits[pivot(digits, radices)] + 1 < radices[pivot(
            digits,
            radices,
        )],
        forall|j: int|
            pivot(digits, radices) < j < digits.len() ==> digits[j] + 1 >= radices[j],
    decreases digits.len(),
{
    if digits.len() > 0 && !(digits.last() + 1 < radices.last()) {
        let init = digits.drop_last();
        let bases = radices.drop_last();
        lemma_pivot_properties(init, bases);
        assert forall|j: int| pivot(digits, radices) < j < digits.len() implies digits[j] + 1
            >= radices[j] by {
            if j < digits.len() - 1 {
                assert(init[j] + 1 >= bases[j]);
            }
        }
    }
}

/// One step counts up by one: from a valid digit vector it either reaches
/// the valid vector that denotes the next number, or overflows, which
/// happens exactly at the last number below the total.
pub proof fn lemma_successor_counts(digits: Seq<nat>, radices: Seq<nat>)
    requires
        valid_digits(digits, radices),
    ensures
        overflows(digits, radices) <==> rank(digits, radices) + 1 == total(radices),
        !overflows(digits, radices) ==> {
            &&& valid_digits(successor(digits, radices), radices)
            &&& rank(successor(digits, radices), radices) == rank(digits, radices) + 1
        },
        overflows(digits, radices) ==> successor(digits, radices) == zeros(digits.len()),
    decreases digits.len(),
{
    lemma_rank_below_total(digits, radices);
    lemma_pivot_properties(digits, radices);
    let next = successor(digits, radices);
    if digits.len() > 0 {
        let init = digits.drop_last();
        let bases = radices.drop_last();
        let b = radices.last() as int;
        let r = rank(init, bases) as int;
        let t = total(bases) as int;
        lemma_rank_below_total(init, bases);
        if digits.last() + 1 < radices.last() {
            assert(next.drop_last() == init);
            assert(r * b + digits.last() + 1 < t * b) by (nonlinear_arith)
                requires
                    0 <= r < t,
                    0 <= digits.last() + 1 < b,
            ;
        } else {
            lemma_successor_counts(init, bases);
            lemma_pivot_properties(init, bases);
            assert(next.drop_last() == successor(init, bases));
            assert(next.last() == 0);
            assert((r + 1) * b == r * b + b) by (nonlinear_arith);
            if !overflows(init, bases) {
                assert(r * b + digits.last() + 1 < t * b) by (nonlinear_arith)
                    requires
                        0 <= r,
                        r + 1 < t,
                        0 <= digits.last() + 1 <= b,
                ;
            }
        }
    }
}

/// Counting up moves forward in lexicographic order: of two numbers below
/// the total, the smaller has the lexicographically smaller representation.
pub proof fn lemma_digits_of_increasing(n: nat, m: nat, radices: Seq<nat>)
    requires
        n < m < total(radices),
    ensures
        lex_less(digits_of(n, radices), digits_of(m, radices)),
    decreases radices.len(),
{
    lemma_digits_of_roundtrip(n, radices);
    lemma_digits_of_roundtrip(m, radices);
    let a = digits_of(n, radices);
    let b = digits_of(m, radices);
    if radices.len() > 0 {
        let bases = radices.drop_last();
        let base = radices.last() as int;
        let t = total(bases) as int;
        assert(base > 0) by (nonlinear_arith)
            requires
                0 <= m < t * base,
                0 <= t,
                0 <= base,
        ;
        let qn = n as int / base;
        let qm = m as int / base;
        assert(0 <= qn <= qm < t && (qn == qm ==> n as int % base < m as int % base))
            by (nonlinear_arith)
            requires
                0 <= n < m < t * base,
                base > 0,
                qn == n as int / base,
                qm == m as int / base,
        ;
        let last = radices.len() - 1;
        assert(a.drop_last() == digits_of(qn as nat, bases));
        assert(b.drop_last() == digits_of(qm as nat, bases));
        if qn < qm {
            lemma_digits_of_increasing(qn as nat, qm as nat, bases);
            let k = choose|k: int| first_differ_at(a.drop_last(), b.drop_last(), k);
            assert(a.take(k) == a.drop_last().take(k));
            assert(b.take(k) == b.drop_last().take(k));
            assert(first_differ_at(a, b, k));
        } else {
            assert(a.take(last) == a.drop_last());
            assert(b.take(last) == b.drop_last());
            assert(first_differ_at(a, b, last));
        }
    }
}

/// The radices of an odometer whose `count` positions all count in base
/// `radix`.
pub open spec fn uniform(radix: nat, count: nat) -> Seq<nat> {
    Seq::new(count, |i: int| radix)
}

/// With the same radix at every position the total is a power of the radix.
pub proof fn lemma_total_uniform(radix: nat, count: nat)
    ensures
        total(uniform(radix, count)) == pow(radix as int, count),
    decreases count,
{
    reveal(pow);
    if count > 0 {
        lemma_total_uniform(radix, (count - 1) as nat);
        assert(uniform(radix, count).drop_last() == uniform(radix, (count - 1) as nat));
        let t = total(uniform(radix, (count - 1) as nat)) as int;
        assert(t * radix == radix * t) by (nonlinear_arith);
    }
}

/// The total is zero exactly when some position has radix zero.
pub proof fn lemma_total_zero(radices: Seq<nat>)
    ensures
        total(radices) == 0 <==> exists|i: int| 0 <= i < radices.len() && radices[i] == 0,
    decreases radices.len(),
{
    if radices.len() > 0 {
        let bases = radices.drop_last();
        lemma_total_zero(bases);
        let t = total(bases) as int;
        let b = radices.last() as int;
        assert(t * b == 0 <==> (t == 0 || b == 0)) by (nonlinear_arith);
        if total(radices) == 0 {
            if b == 0 {
                assert(radices[radices.len() - 1] == 0);
            } else {
                let i = choose|i: int| 0 <= i < bases.len() && bases[i] == 0;
                assert(radices[i] == 0);
            }
        } else {
            assert forall|i: int| 0 <= i < radices.len() implies radices[i] != 0 by {
                if i < bases.len() {
                    assert(bases[i] == radices[i]);
                }
            }
        }
    }
}

/// Counting never repeats a digit vector: two numbers below the total with
/// the same representation are the same number.
pub proof fn lemma_digits_of_injective(n: nat, m: nat, radices: Seq<nat>)
    requires
        n < total(radices),
        m < total(radices),
        digits_of(n, radices) == digits_of(m, radices),
    ensures
        n == m,
{
    lemma_digits_of_roundtrip(n, radices);
    lemma_digits_of_roundtrip(m, radices);
}

/// Counting visits every valid digit vector exactly once: at the number
/// the vector denotes, and at no other number below the total.
pub proof fn lemma_visited_exactly_once(digits: Seq<nat>, radices: Seq<nat>)
    requires
        valid_digits(digits, radices),
    ensures
        rank(digits, radices) < total(radices),
        digits_of(rank(digits, radices), radices) == digits,
        forall|n: nat|
            n < total(radices) && #[trigger] digits_of(n, radices) == digits ==> n == rank(
                digits,
                radices,
            ),
{
    lemma_rank_below_total(digits, radices);
    lemma_rank_roundtrip(digits, radices);
    assert forall|n: nat|
        n < total(radices) && #[trigger] digits_of(n, radices) == digits implies n == rank(
        digits,
        radices,
    ) by {
        lemma_digits_of_roundtrip(n, radices);
    }
}

/// Each digit vector that counting visits comes lexicographically before
/// the one visited right after it.
pub proof fn lemma_consecutive_increase(n: nat, radices: Seq<nat>)
    requires
        n + 1 < total(radices),
    ensures
        lex_less(digits_of(n, radices), digits_of(n + 1, radices)),
{
    lemma_digits_of_increasing(n, n + 1, radices);
}

/// The all-zero digit vector: where every odometer starts, and where it
/// rests after it has overflowed.
pub open spec fn zeros(count: nat) -> Seq<nat> {
    Seq::new(count, |i: int| 0nat)
}

/// Every digit is a proper digit of its position, or every digit is zero.
/// This is what the digits of an odometer are at all times, also where a
/// radix is zero and no proper digit exists.
pub open spec fn settled_digits(digits: Seq<nat>, radices: Seq<nat>) -> bool {
    &&& digits.len() == radices.len()
    &&& valid_digits(digits, radices) || digits == zeros(digits.len())
}

/// The all-zero digit vector denotes zero.
pub proof fn lemma_rank_of_zeros(radices: Seq<nat>)
    ensures
        rank(zeros(radices.len()), radices) == 0,
    decreases radices.len(),
{
    if radices.len() > 0 {
        let bases = radices.drop_last();
        lemma_rank_of_zeros(bases);
        assert(zeros(radices.len()).drop_last() == zeros(bases.len()));
        assert(0 * radices.last() == 0) by (nonlinear_arith);
    }
}

/// Where no radix is zero, settled digits are valid, and a step from them
/// leaves settled digits: the valid successor, or all zeros on overflow.
pub proof fn lemma_step_keeps_settled(digits: Seq<nat>, radices: Seq<nat>)
    requires
        settled_digits(digits, radices),
        total(radices) > 0,
    ensures
        valid_digits(digits, radices),
        settled_digits(successor(digits, radices), radices),
        overflows(digits, radices) ==> successor(digits, radices) == zeros(digits.len()),
{
    lemma_total_zero(radices);
    lemma_successor_counts(digits, radices);
}

/// Where every radix is zero, a step from all zeros overflows and leaves
/// all zeros.
pub proof fn lemma_step_without_digits(count: nat)
    ensures
        overflows(zeros(count), uniform(0, count)),
        successor(zeros(count), uniform(0, count)) == zeros(count),
{
    lemma_pivot_is(zeros(count), uniform(0, count), -1);
}

/// One step of an odometer on its digits, in place: scanning from the last
/// position to the first, a digit that can still grow grows by one and ends
/// the step; any other digit falls back to zero and the step carries on to
/// the left. The result tells whether the step carried out of the first
/// position.
///
/// `radix_at` gives the radix of a position; `radices` is what it gives for
/// each of them.
pub(crate) fn advance<F: Fn(usize) -> usize>(
    digits: &mut [usize],
    Ghost(radices): Ghost<Seq<nat>>,
    radix_at: F,
) -> (carry: bool)
    requires
        settled_digits(as_digits(old(digits)@), radices),
        forall|i: usize| i < radices.len() ==> call_requires(radix_at, (i,)),
        forall|i: usize, radix: usize|
            i < radices.len() && call_ensures(radix_at, (i,), radix) ==> radix == radices[i as int],
    ensures
        as_digits(final(digits)@) == successor(as_digits(old(digits)@), radices),
        carry == overflows(as_digits(old(digits)@), radices),
{
    let ghost before = as_digits(digits@);
    let mut carry = true;
    let mut i = digits.len();
    while carry && i > 0
        invariant
            digits@.len() == before.len() == radices.len(),
            settled_digits(before, radices),
            forall|j: usize| j < radices.len() ==> call_requires(radix_at, (j,)),
            forall|j: usize, radix: usize|
                j < radices.len() && call_ensures(radix_at, (j,), radix) ==> radix
                    == radices[j as int],
            0 <= i <= before.len(),
            carry ==> forall|j: int| 0 <= j < i ==> digits@[j] == before[j],
            carry ==> forall|j: int| i <= j < before.len() ==> before[j] + 1 >= radices[j],
            carry ==> forall|j: int| i <= j < before.len() ==> digits@[j] == 0,
            !carry ==> as_digits(digits@) == successor(before, radices),
            !carry ==> pivot(before, radices) >= 0,
        decreases i + if carry { 1int } else { 0int },
    {
        i -= 1;
        let radix = radix_at(i);
        assert(before[i as int] == 0 || before[i as int] < radices[i as int]);
        let next = digits[i] + 1;
        if next >= radix {
            digits[i] = 0;
        } else {
            digits[i] = next;
            carry = false;
            proof {
                lemma_pivot_is(before, radices, i as int);
                assert(as_digits(digits@) =~= successor(before, radices));
            }
        }
    }
    proof {
        if carry {
            lemma_pivot_is(before, radices, -1);
            assert(as_digits(digits@) =~= successor(before, radices));
        }
    }
    carry
}

} // verus!
