//! Exact rational scores.
//!
//! A score is the sum of reciprocals of non-zero day-count terms. The
//! mathematical value is modelled as an unreduced fraction of unbounded
//! integers; the executable arbitrary-precision evaluation is delegated to
//! the `num` crate behind trusted wrappers.

use vstd::prelude::*;
use vstd::arithmetic::mul::lemma_mul_strictly_positive;
use core::cmp::Ordering;
use crate::text::{int_text, nat_text};

verus! {

/// A rational number as an unreduced fraction; well-formed when `den > 0`.
pub struct Rational {
    pub num: int,
    pub den: int,
}

pub open spec fn rat_wf(q: Rational) -> bool {
    q.den > 0
}

pub open spec fn rat_zero() -> Rational {
    Rational { num: 0, den: 1 }
}

pub open spec fn rat_one() -> Rational {
    Rational { num: 1, den: 1 }
}

/// The reciprocal of the integer `k`, with a positive denominator.
pub open spec fn recip_of(k: int) -> Rational
    recommends
        k != 0,
{
    if k < 0 {
        Rational { num: -1, den: -k }
    } else {
        Rational { num: 1, den: k }
    }
}

pub open spec fn rat_plus(a: Rational, b: Rational) -> Rational {
    Rational { num: a.num * b.den + b.num * a.den, den: a.den * b.den }
}

/// `a < b`, by cross-multiplication; sound when both are well-formed.
pub open spec fn rat_lt(a: Rational, b: Rational) -> bool
    recommends
        rat_wf(a),
        rat_wf(b),
{
    a.num * b.den < b.num * a.den
}

/// `a == b` as values, by cross-multiplication.
pub open spec fn rat_eq(a: Rational, b: Rational) -> bool
    recommends
        rat_wf(a),
        rat_wf(b),
{
    a.num * b.den == b.num * a.den
}

/// The exact value a list of day-count terms denotes: the sum of the
/// reciprocals of the terms.
pub open spec fn sum_recips(terms: Seq<i64>) -> Rational
    decreases terms.len(),
{
    if terms.len() == 0 {
        rat_zero()
    } else {
        rat_plus(sum_recips(terms.drop_last()), recip_of(terms.last() as int))
    }
}

pub open spec fn all_nonzero(terms: Seq<i64>) -> bool {
    forall|i: int| 0 <= i < terms.len() ==> terms[i] != 0
}

/// The sum of reciprocals of non-zero terms is well-formed.
pub proof fn lemma_sum_recips_wf(terms: Seq<i64>)
    requires
        all_nonzero(terms),
    ensures
        rat_wf(sum_recips(terms)),
    decreases terms.len(),
{
    if terms.len() > 0 {
        assert(all_nonzero(terms.drop_last()));
        lemma_sum_recips_wf(terms.drop_last());
        lemma_mul_strictly_positive(
            sum_recips(terms.drop_last()).den,
            recip_of(terms.last() as int).den,
        );
    }
}

/// `1/(1+k) == 1` exactly when `k == 0`.
///
/// A single-term score is the reciprocal of its term, so an event scores
/// one point exactly when it was completed on the day its puzzle unlocked.
pub proof fn lemma_score_one_iff(term: i64)
    requires
        term != 0,
    ensures
        rat_eq(sum_recips(seq![term]), rat_one()) <==> term == 1,
{
    let s = seq![term];
    assert(s.drop_last() =~= Seq::<i64>::empty());
    assert(sum_recips(Seq::<i64>::empty()) == rat_zero());
    assert(s.last() == term);
    assert(sum_recips(s) == rat_plus(rat_zero(), recip_of(term as int)));
    let q = sum_recips(s);
    let k = recip_of(term as int);
    assert(q.num == 0 * k.den + k.num * 1 && q.den == 1 * k.den);
    assert(0 * k.den == 0) by (nonlinear_arith);
    assert(k.num * 1 == k.num) by (nonlinear_arith);
    assert(1 * k.den == k.den) by (nonlinear_arith);
    assert(q.num == k.num && q.den == k.den);
    if term < 0 {
        assert(k.num == -1 && k.den == -(term as int));
        assert(rat_eq(q, rat_one()) <==> q.num * 1 == 1 * q.den);
        assert(!rat_eq(q, rat_one()));
    } else {
        assert(k.num == 1 && k.den == term as int);
        assert(rat_eq(q, rat_one()) <==> q.num * 1 == 1 * q.den);
    }
}

/// The greatest common divisor, for reducing fractions in specifications.
pub open spec fn gcd_of(a: int, b: int) -> int
    recommends
        a >= 0,
        b >= 0,
    decreases b,
{
    if b <= 0 {
        a
    } else {
        gcd_of(b, a % b)
    }
}

/// The rendering of a rational in lowest terms: the reduced numerator
/// alone when the reduced denominator is one, `num/den` otherwise.
pub open spec fn fraction_text(q: Rational) -> Seq<char>
    recommends
        rat_wf(q),
{
    let m = if q.num < 0 {
        -q.num
    } else {
        q.num
    };
    let g = gcd_of(m, q.den);
    if q.den == g {
        int_text(q.num / g)
    } else {
        int_text(q.num / g) + seq!['/'] + nat_text(q.den / g)
    }
}

/// `num/den` rounded to the nearest integer, half away from zero.
pub open spec fn round_half_away(num: int, den: int) -> int
    recommends
        den > 0,
{
    if num >= 0 {
        (2 * num + den) / (2 * den)
    } else {
        -((2 * (-num) + den) / (2 * den))
    }
}

/// One hundred times `q`, rounded to the nearest integer half away from
/// zero.
pub open spec fn centi_round(q: Rational) -> int
    recommends
        rat_wf(q),
{
    round_half_away(100 * q.num, q.den)
}

/// Strict order on rationals is transitive.
pub proof fn lemma_rat_lt_trans(a: Rational, b: Rational, c: Rational)
    requires
        rat_wf(a),
        rat_wf(b),
        rat_wf(c),
        rat_lt(a, b),
        rat_lt(b, c),
    ensures
        rat_lt(a, c),
{
    assert(a.num * c.den < c.num * a.den) by (nonlinear_arith)
        requires
            a.num * b.den < b.num * a.den,
            b.num * c.den < c.num * b.den,
            a.den > 0,
            b.den > 0,
            c.den > 0,
    ;
}

/// Equal values compare alike on the right of a strict comparison.
pub proof fn lemma_rat_eq_lt_right(a: Rational, b: Rational, c: Rational)
    requires
        rat_wf(a),
        rat_wf(b),
        rat_wf(c),
        rat_eq(a, b),
    ensures
        rat_lt(c, a) == rat_lt(c, b),
{
    assert((c.num * a.den < a.num * c.den) == (c.num * b.den < b.num * c.den))
        by (nonlinear_arith)
        requires
            a.num * b.den == b.num * a.den,
            a.den > 0,
            b.den > 0,
            c.den > 0,
    ;
}

/// Value equality is transitive.
pub proof fn lemma_rat_eq_trans(a: Rational, b: Rational, c: Rational)
    requires
        rat_wf(a),
        rat_wf(b),
        rat_wf(c),
        rat_eq(a, b),
        rat_eq(b, c),
    ensures
        rat_eq(a, c),
{
    assert(a.num * c.den == c.num * a.den) by (nonlinear_arith)
        requires
            a.num * b.den == b.num * a.den,
            b.num * c.den == c.num * b.den,
            a.den > 0,
            b.den > 0,
            c.den > 0,
    ;
}

/// Two values neither of which is below the other are equal.
pub proof fn lemma_rat_connected(a: Rational, b: Rational)
    requires
        rat_wf(a),
        rat_wf(b),
        !rat_lt(a, b),
        !rat_lt(b, a),
    ensures
        rat_eq(a, b),
{
}

/// How the exact values of two term-lists compare.
///
/// Relies on num's `BigRational` (`Ratio<BigInt>`): `Ratio::new` builds the
/// exact reduced fraction and panics only on a zero denominator, `Sum`
/// folds with exact rational addition, and `Ord::cmp` compares exact
/// values.
#[verifier::external_body]
pub(crate) fn rat_cmp(a: &Vec<i64>, b: &Vec<i64>) -> (r: Ordering)
    requires
        all_nonzero(a@),
        all_nonzero(b@),
    ensures
        (r == Ordering::Less) <==> rat_lt(sum_recips(a@), sum_recips(b@)),
        (r == Ordering::Greater) <==> rat_lt(sum_recips(b@), sum_recips(a@)),
        (r == Ordering::Equal) <==> rat_eq(sum_recips(a@), sum_recips(b@)),
{
    let s: num::BigRational = a.iter().map(|k| num::BigRational::new(1.into(), (*k).into())).sum();
    let t: num::BigRational = b.iter().map(|k| num::BigRational::new(1.into(), (*k).into())).sum();
    s.cmp(&t)
}

/// The exact value of a term-list, rendered in lowest terms.
///
/// Relies on num's `BigRational`: `Ratio::new` and `Sum` keep the exact
/// value in lowest terms with a positive denominator and the sign on the
/// numerator, and `Display` renders an integer value as its numerator
/// alone and any other value as `numer/denom`.
#[verifier::external_body]
pub(crate) fn rat_text(terms: &Vec<i64>) -> (r: String)
    requires
        all_nonzero(terms@),
    ensures
        r@ == fraction_text(sum_recips(terms@)),
{
    let s: num::BigRational = terms.iter().map(
        |k| num::BigRational::new(1.into(), (*k).into()),
    ).sum();
    format!("{}", s)
}

/// One hundred times the exact value of a term-list, rounded to the
/// nearest integer half away from zero.
///
/// Relies on num's `BigRational`: exact arithmetic, `Ratio::round`
/// rounding half-way cases away from zero, and `Ratio::to_integer` on the
/// already-integral result. Each reciprocal has magnitude at most one, so
/// the result's magnitude is bounded by one hundred times the number of
/// terms plus one and the conversion to `i64` cannot fail under the
/// length bound required here.
#[verifier::external_body]
pub(crate) fn rat_centi(terms: &Vec<i64>) -> (r: i64)
    requires
        all_nonzero(terms@),
        terms@.len() <= 0x1000_0000_0000,
    ensures
        r as int == centi_round(sum_recips(terms@)),
{
    let s: num::BigRational = terms.iter().map(
        |k| num::BigRational::new(1.into(), (*k).into()),
    ).sum();
    let c = (s * num::BigRational::from_integer(100.into())).round().to_integer();
    i64::try_from(c).unwrap()
}

} // verus!
