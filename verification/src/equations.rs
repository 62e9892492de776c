//! What the Levinson-Durbin recursion solves, where rounding changes none of its values.

use crate::correlation::{lemma_total_of_reverse, steps, total};
use crate::lpc::{lemma_levinson_durbin_len, levinson_durbin, Recursion};
use crate::number::{binary32, Num};
use vstd::arithmetic::power2::{lemma_pow2_pos, pow2};
use vstd::prelude::*;

verus! {

/// The number one as a multiple of the smallest 32-bit number.
pub open spec fn one() -> int {
    pow2((-binary32().min_exp()) as nat) as int
}

/// Some numbers as multiples of the smallest 32-bit number.
pub open spec fn multiples(s: Seq<Num>) -> Seq<int> {
    s.map_values(|v: Num| steps(v))
}

/// The distance from zero.
pub open spec fn apart(d: int) -> int {
    if d < 0 {
        -d
    } else {
        d
    }
}

/// The products of the coefficients `b` of the lags from 1 on with the autocorrelation at
/// the distance of each lag from `i`.
pub open spec fn terms(r: Seq<int>, b: Seq<int>, i: int) -> Seq<int> {
    Seq::new(b.len(), |j: int| b[j] * r[apart(i - 1 - j)])
}

/// The left side of normal equation `i`, without rounding:
/// `r[i] + sum over j from 1 of forward[j - 1] * r[|i - j|]`,
/// as a multiple of the square of the smallest 32-bit number.
pub open spec fn left_side(r: Seq<Num>, forward: Seq<Num>, i: int) -> int {
    steps(r[i]) * one() + total(terms(multiples(r), multiples(forward), i))
}

/// Whether every number of a sequence is finite.
pub open spec fn all_finite(s: Seq<Num>) -> bool {
    forall|i: int| 0 <= i < s.len() ==> (#[trigger] s[i]) is Finite
}

/// Whether a step of the recursion gives what it would without rounding: the feedback
/// coefficient is the exact quotient, and each forward coefficient and the error what
/// follows from it.
pub open spec fn is_exact_step(r: Seq<Num>, before: Recursion, after: Recursion) -> bool {
    let m = before.forward.len() as int;
    let k = steps(after.feedback.last());
    &&& after.error is Finite
    &&& all_finite(after.forward)
    &&& k * steps(before.error) == -left_side(r, before.forward, m + 1)
    &&& forall|j: int|
        0 <= j < m ==> steps(#[trigger] after.forward[j]) * one() == steps(before.forward[j])
            * one() + k * steps(before.forward[m - 1 - j])
    &&& steps(after.error) * (one() * one()) == steps(before.error) * (one() * one() - k * k)
}

/// Whether no step of the recursion is rounded.
pub open spec fn is_exact(r: Seq<Num>, order: nat) -> bool {
    forall|m: nat|
        m < order ==> is_exact_step(r, #[trigger] levinson_durbin(r, m), levinson_durbin(r, m + 1))
}

/// Where no step is rounded, the forward coefficients solve the normal equations: for every
/// `i` from 1 to the order, `r[i]` and the products of the coefficients with the
/// autocorrelation at the distances of their lags from `i` add up to zero.
pub proof fn lemma_normal_equations(r: Seq<Num>, order: nat, i: int)
    requires
        order < r.len(),
        is_exact(r, order),
        1 <= i <= order,
    ensures
        left_side(r, levinson_durbin(r, order).forward, i) == 0,
{
    lemma_solution(r, order);
}

/// Where no step is rounded, the error is what is left of the energy:
/// `r[0] + sum over j from 1 of forward[j - 1] * r[j]`.
pub proof fn lemma_error_is_what_is_left(r: Seq<Num>, order: nat)
    requires
        order < r.len(),
        is_exact(r, order),
    ensures
        left_side(r, levinson_durbin(r, order).forward, 0) == steps(
            levinson_durbin(r, order).error,
        ) * one(),
{
    lemma_solution(r, order);
}

/// A combination of two sequences has the combination of their sums.
proof fn lemma_total_combines(a: Seq<int>, b: Seq<int>, c: Seq<int>, u: int, k: int)
    requires
        a.len() == b.len() == c.len(),
        forall|j: int| 0 <= j < a.len() ==> (#[trigger] a[j]) * u == b[j] * u + k * c[j],
    ensures
        total(a) * u == total(b) * u + k * total(c),
    decreases a.len(),
{
    if a.len() > 0 {
        lemma_total_combines(a.drop_last(), b.drop_last(), c.drop_last(), u, k);
        let (x, y, z) = (total(a.drop_last()), total(b.drop_last()), total(c.drop_last()));
        assert(a.last() * u == b.last() * u + k * c.last());
        assert((x + a.last()) * u == (y + b.last()) * u + k * (z + c.last())) by (nonlinear_arith)
            requires
                x * u == y * u + k * z,
                a.last() * u == b.last() * u + k * c.last(),
        ;
    } else {
        assert(0 * u == 0 && k * 0 == 0);
    }
}

/// Coefficients in reverse meet the autocorrelation as they do from the other end.
proof fn lemma_terms_of_reverse(r: Seq<int>, b: Seq<int>, i: int)
    ensures
        total(terms(r, b.reverse(), i)) == total(terms(r, b, b.len() + 1 - i)),
{
    let mirrored = terms(r, b, b.len() + 1 - i);
    assert(terms(r, b.reverse(), i) =~= mirrored.reverse());
    lemma_total_of_reverse(mirrored);
}

/// How the left side of an equation changes in a step: by the feedback coefficient times
/// the left side of the mirrored equation.
#[verifier::rlimit(40)]
proof fn lemma_step(r: Seq<Num>, m: nat, i: int)
    requires
        m + 1 < r.len(),
        is_exact_step(r, levinson_durbin(r, m), levinson_durbin(r, m + 1)),
        0 <= i <= m + 1,
    ensures
        ({
            let before = levinson_durbin(r, m);
            let after = levinson_durbin(r, m + 1);
            left_side(r, after.forward, i) * one() == left_side(r, before.forward, i) * one()
                + steps(after.feedback.last()) * left_side(r, before.forward, m + 1 - i)
        }),
{
    let before = levinson_durbin(r, m);
    let after = levinson_durbin(r, m + 1);
    lemma_levinson_durbin_len(r, m);
    lemma_levinson_durbin_len(r, m + 1);
    let u = one();
    let k = steps(after.feedback.last());
    let rr = multiples(r);
    let b = multiples(before.forward);
    let c = multiples(after.forward);
    let front = terms(rr, c, i).drop_last();
    let own = terms(rr, b, i);
    let mirrored = terms(rr, b.reverse(), i);
    assert forall|j: int| 0 <= j < m implies (#[trigger] front[j]) * u == own[j] * u + k
        * mirrored[j] by {
        let w = rr[apart(i - 1 - j)];
        assert(c[j] == steps(after.forward[j]));
        assert(b.reverse()[j] == steps(before.forward[m - 1 - j]));
        assert((c[j] * w) * u == (b[j] * w) * u + k * (b.reverse()[j] * w)) by (nonlinear_arith)
            requires
                c[j] * u == b[j] * u + k * b.reverse()[j],
        ;
    }
    lemma_total_combines(front, own, mirrored, u, k);
    lemma_terms_of_reverse(rr, b, i);
    let last = c[m as int] * rr[m + 1 - i];
    assert(terms(rr, c, i).last() == last);
    assert(c[m as int] == k);
    let w = steps(r[m + 1 - i]);
    assert(rr[m + 1 - i] == w);
    let (x, y, z) = (total(front), total(own), total(mirrored));
    let ri = steps(r[i]);
    assert((ri * u + (x + k * w)) * u == (ri * u + y) * u + k * (w * u + z)) by (nonlinear_arith)
        requires
            x * u == y * u + k * z,
    ;
}

#[verifier::rlimit(40)]
proof fn lemma_solution(r: Seq<Num>, order: nat)
    requires
        order < r.len(),
        is_exact(r, order),
    ensures
        ({
            let solved = levinson_durbin(r, order);
            &&& forall|i: int| 1 <= i <= order ==> #[trigger] left_side(r, solved.forward, i) == 0
            &&& left_side(r, solved.forward, 0) == steps(solved.error) * one()
        }),
    decreases order,
{
    let u = one();
    lemma_pow2_pos((-binary32().min_exp()) as nat);
    if order == 0 {
        assert(terms(multiples(r), multiples(levinson_durbin(r, 0).forward), 0) =~= Seq::empty());
    } else {
        let m = (order - 1) as nat;
        let before = levinson_durbin(r, m);
        let after = levinson_durbin(r, order);
        lemma_levinson_durbin_len(r, m);
        assert forall|n: nat| n < m implies is_exact_step(
            r,
            #[trigger] levinson_durbin(r, n),
            levinson_durbin(r, n + 1),
        ) by {}
        lemma_solution(r, m);
        assert(is_exact_step(r, before, levinson_durbin(r, m + 1)));
        let k = steps(after.feedback.last());
        let e = steps(before.error);
        assert forall|i: int| 1 <= i <= order implies #[trigger] left_side(r, after.forward, i)
            == 0 by {
            lemma_step(r, m, i);
            let v = left_side(r, after.forward, i);
            let w = left_side(r, before.forward, i);
            let x = left_side(r, before.forward, order - i);
            if i < order {
                assert(w == 0 && x == 0);
            } else {
                assert(w == -(k * e) && x == e * u);
            }
            assert(v * u == 0) by (nonlinear_arith)
                requires
                    v * u == w * u + k * x,
                    (w == 0 && x == 0) || (w == -(k * e) && x == e * u),
            ;
            assert(v == 0) by (nonlinear_arith)
                requires
                    v * u == 0,
                    u > 0,
            ;
        }
        lemma_step(r, m, 0);
        let v = left_side(r, after.forward, 0);
        let f = steps(after.error);
        assert(v * u == (f * u) * u) by (nonlinear_arith)
            requires
                v * u == (e * u) * u + k * (-(k * e)),
                f * (u * u) == e * (u * u - k * k),
        ;
        assert(v == f * u) by (nonlinear_arith)
            requires
                v * u == (f * u) * u,
                u > 0,
        ;
    }
}

} // verus!
