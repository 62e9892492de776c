//! Linear prediction: from a frame of samples to the coefficients of an all-pole filter.
//!
//! 1. windowing and pre-emphasis, `y[n] = x[n] - 0.97 * x[n - 1]`;
//! 2. autocorrelation of the windowed frame, out to a lag of the filter's order;
//! 3. the Levinson-Durbin recursion, which turns the autocorrelation into coefficients.

use crate::float::{values, Single};
use crate::number::{
    binary32, diff32, fraction32, prod32, quot32, sum32, whole32, zero32, Num,
};
use crate::rounding::{lemma_append_none, lemma_round_digits};
use vstd::arithmetic::power2::{lemma_pow2_pos, pow2};
use vstd::prelude::*;

verus! {

/// The order of the filter: at least 16 and at most 18 for a rate of 16 kHz.
pub const LPC_ORDER: usize = 18;

/// The samples of a frame of 25 ms at 16 kHz.
pub const LPC_WINDOW_LEN: usize = 400;

/// The samples from the start of one frame to the start of the next.
pub const LPC_HOP_LEN: usize = 67;

/// The ratio of a circle's circumference to its diameter, rounded to 32 bits.
pub open spec fn pi32() -> Num {
    binary32().decode(0x4049_0fdb)
}

/// The ratio of a circle's circumference to its diameter.
pub fn pi() -> (r: Single)
    ensures
        r@ == pi32(),
{
    Single::from_bits(0x4049_0fdb)
}

/// The angle `2 * pi * i / (n - 1)` of a window's coefficient.
pub open spec fn hamming_angle_of(i: nat, n: nat) -> Num {
    quot32(
        prod32(prod32(whole32(2), pi32()), whole32(i)),
        diff32(whole32(n), whole32(1)),
    )
}

/// The angle whose cosine shapes coefficient `i` of a Hamming window of `n`.
pub fn hamming_angle(i: usize, n: usize) -> (r: Single)
    ensures
        r@ == hamming_angle_of(i as nat, n as nat),
{
    let turn: Single = Single::from_whole(2).mul(pi());
    let span: Single = Single::from_whole(n as u64).sub(Single::from_whole(1));
    turn.mul(Single::from_whole(i as u64)).div(span)
}

/// The Hamming coefficient `0.54 - 0.46 * cosine` for the cosine of the angle that
/// [`hamming_angle`] gives.
pub fn hamming_window_coefficient(cosine: Single) -> (r: Single)
    ensures
        r@ == diff32(fraction32(54, 100), prod32(fraction32(46, 100), cosine@)),
{
    Single::fraction(54, 100).sub(Single::fraction(46, 100).mul(cosine))
}

/// Sample `i` after pre-emphasis; what lies before the first sample counts as zero.
pub open spec fn emphasized(x: Seq<Num>, i: int) -> Num {
    if i == 0 {
        x[0]
    } else {
        diff32(x[i], prod32(fraction32(97, 100), x[i - 1]))
    }
}

/// A frame after pre-emphasis and windowing, in that order.
pub open spec fn shaped(x: Seq<Num>, window: Seq<Num>) -> Seq<Num> {
    Seq::new(x.len(), |i: int| prod32(emphasized(x, i), window[i]))
}

/// Applies the pre-emphasis filter, then the window, to each sample.
pub fn lpc_window_and_pre_emphasize_arr<const N: usize>(
    x_in: &[Single; N],
    window: &[Single; N],
    x_out: &mut [Single; N],
)
    requires
        N > 0,
    ensures
        values(final(x_out)@) == shaped(values(x_in@), values(window@)),
{
    let pre_emphasis: Single = Single::fraction(97, 100);
    let ghost x = values(x_in@);
    let ghost w = values(window@);
    x_out[0] = x_in[0].mul(window[0]);
    let mut i: usize = 1;
    while i < N
        invariant
            1 <= i <= N,
            pre_emphasis@ == fraction32(97, 100),
            x == values(x_in@),
            w == values(window@),
            forall|j: int| 0 <= j < i ==> (#[trigger] x_out@[j])@ == prod32(emphasized(x, j), w[j]),
        decreases N - i,
    {
        let e: Single = x_in[i].sub(pre_emphasis.mul(x_in[i - 1]));
        assert(x_in@[i as int]@ == x[i as int] && x_in@[i - 1]@ == x[i - 1]);
        x_out[i] = e.mul(window[i]);
        i = i + 1;
    }
    assert(values(x_out@) =~= shaped(x, w));
}

/// The products of samples `lag` apart, summed from the left, of the first `end` samples.
pub open spec fn lag_sum(x: Seq<Num>, lag: nat, end: nat) -> Num
    decreases end,
{
    if end <= lag {
        zero32()
    } else {
        sum32(
            lag_sum(x, lag, (end - 1) as nat),
            prod32(x[end - 1], x[end - 1 - lag]),
        )
    }
}

/// The autocorrelation of a frame at the lags from 0 to `order`.
pub open spec fn autocorrelation(x: Seq<Num>, order: nat) -> Seq<Num> {
    Seq::new(order + 1, |lag: int| lag_sum(x, lag as nat, x.len()))
}

/// Computes the autocorrelation of a frame at the lags from 0 to `ORDER`.
pub fn lpc_autocorrelate_arr<const ORDER: usize, const N: usize, const X_A_LEN: usize>(
    x: &[Single; N],
    x_a: &mut [Single; X_A_LEN],
)
    requires
        X_A_LEN == ORDER + 1,
    ensures
        values(final(x_a)@) == autocorrelation(values(x@), ORDER as nat),
{
    let ghost v = values(x@);
    let mut i: usize = 0;
    while i <= ORDER
        invariant
            i <= ORDER + 1,
            X_A_LEN == ORDER + 1,
            v == values(x@),
            forall|j: int| 0 <= j < i ==> (#[trigger] x_a@[j])@ == lag_sum(v, j as nat, N as nat),
        decreases ORDER + 1 - i,
    {
        let mut sum: Single = Single::zero();
        let mut n: usize = i;
        while n < N
            invariant
                i <= n,
                i <= n <= N || n == i,
                v == values(x@),
                sum@ == lag_sum(v, i as nat, n as nat),
            decreases N - n,
        {
            assert(x@[n as int]@ == v[n as int] && x@[n - i]@ == v[n - i]);
            sum = sum.add(x[n].mul(x[n - i]));
            n = n + 1;
        }
        assert(sum@ == lag_sum(v, i as nat, N as nat));
        x_a[i] = sum;
        i = i + 1;
    }
    assert(values(x_a@) =~= autocorrelation(v, ORDER as nat));
}

/// The state of the recursion after some steps.
pub struct Recursion {
    /// the forward coefficients so far
    pub forward: Seq<Num>,
    /// the feedback (reflection) coefficients so far
    pub feedback: Seq<Num>,
    /// the energy of the prediction error
    pub error: Num,
}

/// The products of the coefficients before `i` with the autocorrelation at the lags from
/// `i` down, the first `end` of them, summed from the left.
pub open spec fn forward_sum(r: Seq<Num>, forward: Seq<Num>, i: nat, end: nat) -> Num
    decreases end,
{
    if end == 0 {
        zero32()
    } else {
        sum32(
            forward_sum(r, forward, i, (end - 1) as nat),
            prod32(forward[end - 1], r[i - (end - 1)]),
        )
    }
}

/// The feedback coefficient of step `i`.
pub open spec fn reflection(r: Seq<Num>, forward: Seq<Num>, i: nat, error: Num) -> Num {
    quot32(sum32(r[i as int + 1], forward_sum(r, forward, i, i)).minus(), error)
}

/// The forward coefficients after a step with feedback coefficient `k`: each gains `k`
/// times its mirror image, and `k` itself comes last.
pub open spec fn reflected(forward: Seq<Num>, k: Num) -> Seq<Num> {
    Seq::new(
        forward.len() + 1,
        |j: int|
            if j < forward.len() {
                sum32(forward[j], prod32(k, forward[forward.len() - 1 - j]))
            } else {
                k
            },
    )
}

/// The recursion after `steps` steps on the autocorrelation `r`.
pub open spec fn levinson_durbin(r: Seq<Num>, steps: nat) -> Recursion
    decreases steps,
{
    if steps == 0 {
        Recursion { forward: Seq::empty(), feedback: Seq::empty(), error: r[0] }
    } else {
        let i = (steps - 1) as nat;
        let before = levinson_durbin(r, i);
        let k = reflection(r, before.forward, i, before.error);
        Recursion {
            forward: reflected(before.forward, k),
            feedback: before.feedback.push(k),
            error: prod32(before.error, diff32(whole32(1), prod32(k, k))),
        }
    }
}

/// Each step adds one coefficient of each kind.
pub(crate) proof fn lemma_levinson_durbin_len(r: Seq<Num>, steps: nat)
    ensures
        levinson_durbin(r, steps).forward.len() == steps,
        levinson_durbin(r, steps).feedback.len() == steps,
    decreases steps,
{
    if steps > 0 {
        lemma_levinson_durbin_len(r, (steps - 1) as nat);
    }
}

/// The feedback coefficient of step `i`.
fn feedback_coefficient<const ORDER: usize, const X_A_LEN: usize>(
    i: usize,
    x_a: &[Single; X_A_LEN],
    b: &[Single; ORDER],
    e: Single,
) -> (k: Single)
    requires
        i < ORDER < X_A_LEN,
    ensures
        k@ == reflection(values(x_a@), values(b@).take(i as int), i as nat, e@),
{
    let ghost r = values(x_a@);
    let ghost forward = values(b@).take(i as int);
    let mut sum: Single = Single::zero();
    let mut j: usize = 0;
    while j < i
        invariant
            j <= i < ORDER < X_A_LEN,
            r == values(x_a@),
            forward == values(b@).take(i as int),
            sum@ == forward_sum(r, forward, i as nat, j as nat),
        decreases i - j,
    {
        assert(b@[j as int]@ == forward[j as int] && x_a@[i - j]@ == r[i - j]);
        sum = sum.add(b[j].mul(x_a[i - j]));
        j = j + 1;
    }
    assert(x_a@[i + 1]@ == r[i + 1]);
    x_a[i + 1].add(sum).neg().div(e)
}

/// Adds to each of the first `i` coefficients `k` times its mirror image, in place, from
/// the edges inwards.
fn update_forward_coefficients<const ORDER: usize>(i: usize, b: &mut [Single; ORDER], k: Single)
    requires
        i < ORDER,
    ensures
        forall|j: int| 0 <= j < i ==> (#[trigger] final(b)@[j])@ == sum32(
            old(b)@[j]@,
            prod32(k@, old(b)@[i - 1 - j]@),
        ),
        forall|j: int| i <= j < ORDER ==> (#[trigger] final(b)@[j]) == old(b)@[j],
{
    let midpoint: usize = i / 2 + i % 2;
    let mut j: usize = 0;
    while j < midpoint
        invariant
            i < ORDER,
            midpoint == i / 2 + i % 2,
            j <= midpoint,
            forall|m: int|
                0 <= m < i && (m < j || m > i - 1 - j) ==> (#[trigger] b@[m])@ == sum32(
                    old(b)@[m]@,
                    prod32(k@, old(b)@[i - 1 - m]@),
                ),
            forall|m: int| j <= m <= i - 1 - j ==> #[trigger] b@[m] == old(b)@[m],
            forall|m: int| i <= m < ORDER ==> #[trigger] b@[m] == old(b)@[m],
        decreases midpoint - j,
    {
        let front: Single = b[j];
        if j == i - 1 - j {
            b[j] = front.add(k.mul(front));
        } else {
            let back: Single = b[i - 1 - j];
            b[j] = front.add(k.mul(back));
            b[i - 1 - j] = back.add(k.mul(front));
        }
        j = j + 1;
    }
}

/// Solves for the coefficients of the all-pole filter with the given autocorrelation:
/// the forward ones in `b`, the feedback ones in `a`.
pub fn lpc_levinson_durbin_arr<const ORDER: usize, const X_A_LEN: usize>(
    x_a: &[Single; X_A_LEN],
    b: &mut [Single; ORDER],
    a: &mut [Single; ORDER],
)
    requires
        ORDER < X_A_LEN,
    ensures
        values(final(b)@) == levinson_durbin(values(x_a@), ORDER as nat).forward,
        values(final(a)@) == levinson_durbin(values(x_a@), ORDER as nat).feedback,
{
    let ghost r = values(x_a@);
    let one: Single = Single::from_whole(1);
    let mut e: Single = x_a[0];
    let mut i: usize = 0;
    while i < ORDER
        invariant
            i <= ORDER < X_A_LEN,
            r == values(x_a@),
            one@ == whole32(1),
            e@ == levinson_durbin(r, i as nat).error,
            values(b@).take(i as int) == levinson_durbin(r, i as nat).forward,
            values(a@).take(i as int) == levinson_durbin(r, i as nat).feedback,
        decreases ORDER - i,
    {
        let ghost before = levinson_durbin(r, i as nat);
        let ghost old_b = b@;
        let ghost old_a = a@;
        let k: Single = feedback_coefficient(i, x_a, b, e);
        a[i] = k;
        update_forward_coefficients(i, b, k);
        b[i] = k;
        e = e.mul(one.sub(k.mul(k)));
        proof {
            let after = levinson_durbin(r, (i + 1) as nat);
            assert forall|j: int| 0 <= j < i implies before.forward[j] == (#[trigger] old_b[j])@ by {
                assert(before.forward[j] == values(old_b).take(i as int)[j]);
            }
            assert(values(b@).take(i + 1) =~= after.forward) by {
                assert forall|j: int| 0 <= j <= i implies values(b@).take(i + 1)[j]
                    == after.forward[j] by {
                    if j < i {
                        assert(b@[j]@ == sum32(old_b[j]@, prod32(k@, old_b[i - 1 - j]@)));
                    }
                }
                lemma_levinson_durbin_len(r, (i + 1) as nat);
                lemma_levinson_durbin_len(r, i as nat);
            }
            assert(values(a@).take(i + 1) =~= after.feedback) by {
                assert(values(a@).take(i + 1) =~= values(old_a).take(i as int).push(k@));
            }
        }
        i = i + 1;
    }
    assert(values(b@).take(ORDER as int) =~= values(b@));
    assert(values(a@).take(ORDER as int) =~= values(a@));
}

/// The coefficients of an auto-regressive filter.
pub struct FilterCoefficients<const ORDER: usize> {
    /// the forward coefficients
    pub b: [Single; ORDER],
    /// the feedback coefficients
    pub a: [Single; ORDER],
}

impl<const ORDER: usize> Default for FilterCoefficients<ORDER> {
    fn default() -> (r: Self)
        ensures
            forall|i: int| 0 <= i < ORDER ==> (#[trigger] r.b@[i])@ == zero32(),
            forall|i: int| 0 <= i < ORDER ==> (#[trigger] r.a@[i])@ == zero32(),
    {
        let zero: Single = Single::zero();
        FilterCoefficients { b: [zero; ORDER], a: [zero; ORDER] }
    }
}

impl<const ORDER: usize> FilterCoefficients<ORDER> {
    /// Estimates the coefficients in place from a signal that is already windowed and
    /// pre-emphasized. The caller chooses where the autocorrelation is stored.
    pub fn estimate<const X_LEN: usize, const X_A_LEN: usize>(
        &mut self,
        x: &[Single; X_LEN],
        x_a: &mut [Single; X_A_LEN],
    ) -> (r: (&[Single; ORDER], &[Single; ORDER]))
        requires
            X_A_LEN == ORDER + 1,
        ensures
            values(final(x_a)@) == autocorrelation(values(x@), ORDER as nat),
            values(final(self).b@) == levinson_durbin(values(final(x_a)@), ORDER as nat).forward,
            values(final(self).a@) == levinson_durbin(values(final(x_a)@), ORDER as nat).feedback,
            *r.0 == final(self).b,
            *r.1 == final(self).a,
    {
        lpc_autocorrelate_arr::<ORDER, X_LEN, X_A_LEN>(x, x_a);
        lpc_levinson_durbin_arr(x_a, &mut self.b, &mut self.a);
        (&self.b, &self.a)
    }
}

/// The stages from samples to coefficients, with the buffers between them.
pub struct LpcPipeline<const ORDER: usize, const WINDOW_LEN: usize, const AUTOCORR_LEN: usize> {
    pub filter_coeffs: FilterCoefficients<ORDER>,
    pub window: [Single; WINDOW_LEN],
    pub autocorrelation: [Single; AUTOCORR_LEN],
}

impl<
    const ORDER: usize,
    const WINDOW_LEN: usize,
    const AUTOCORR_LEN: usize,
> Default for LpcPipeline<ORDER, WINDOW_LEN, AUTOCORR_LEN> {
    fn default() -> (r: Self)
        ensures
            forall|i: int| 0 <= i < ORDER ==> (#[trigger] r.filter_coeffs.b@[i])@ == zero32(),
            forall|i: int| 0 <= i < ORDER ==> (#[trigger] r.filter_coeffs.a@[i])@ == zero32(),
            forall|i: int| 0 <= i < WINDOW_LEN ==> (#[trigger] r.window@[i])@ == zero32(),
            forall|i: int|
                0 <= i < AUTOCORR_LEN ==> (#[trigger] r.autocorrelation@[i])@ == zero32(),
    {
        let zero: Single = Single::zero();
        LpcPipeline {
            filter_coeffs: FilterCoefficients::default(),
            window: [zero; WINDOW_LEN],
            autocorrelation: [zero; AUTOCORR_LEN],
        }
    }
}

/// The filter that a frame of samples leads to under a window.
pub open spec fn prediction(x: Seq<Num>, window: Seq<Num>, order: nat) -> Recursion {
    levinson_durbin(autocorrelation(shaped(x, window), order), order)
}

impl<
    const ORDER: usize,
    const WINDOW_LEN: usize,
    const AUTOCORR_LEN: usize,
> LpcPipeline<ORDER, WINDOW_LEN, AUTOCORR_LEN> {
    /// Runs the stages up to the end of the Levinson-Durbin recursion on one frame, and
    /// returns the forward and the feedback coefficients.
    pub fn run_once(&mut self, x: &[Single; WINDOW_LEN], window: &[Single; WINDOW_LEN]) -> (r: (
        &[Single; ORDER],
        &[Single; ORDER],
    ))
        requires
            WINDOW_LEN > 0,
            AUTOCORR_LEN == ORDER + 1,
        ensures
            values(r.0@) == prediction(values(x@), values(window@), ORDER as nat).forward,
            values(r.1@) == prediction(values(x@), values(window@), ORDER as nat).feedback,
            values(final(self).window@) == shaped(values(x@), values(window@)),
            values(final(self).autocorrelation@) == autocorrelation(
                values(final(self).window@),
                ORDER as nat,
            ),
            *r.0 == final(self).filter_coeffs.b,
            *r.1 == final(self).filter_coeffs.a,
    {
        lpc_window_and_pre_emphasize_arr(x, window, &mut self.window);
        self.filter_coeffs.estimate(&self.window, &mut self.autocorrelation)
    }
}

/// The squares of the first `end` samples, summed from the left.
pub open spec fn square_sum(x: Seq<Num>, end: nat) -> Num
    decreases end,
{
    if end == 0 {
        zero32()
    } else {
        sum32(square_sum(x, (end - 1) as nat), prod32(x[end - 1], x[end - 1]))
    }
}

/// The root of the mean of the squared samples.
pub open spec fn root_mean_square(x: Seq<Num>) -> Num {
    quot32(square_sum(x, x.len()), whole32(x.len())).root(binary32())
}

/// Whether a frame is loud enough to hold a voice.
pub fn is_voiced(in_buf: &[Single], threshold: Single) -> (r: bool)
    ensures
        r == threshold@.below(root_mean_square(values(in_buf@))),
{
    let ghost x = values(in_buf@);
    let mut sum: Single = Single::zero();
    let mut i: usize = 0;
    while i < in_buf.len()
        invariant
            i <= in_buf@.len(),
            x == values(in_buf@),
            sum@ == square_sum(x, i as nat),
        decreases in_buf@.len() - i,
    {
        assert(in_buf@[i as int]@ == x[i as int]);
        sum = sum.add(in_buf[i].mul(in_buf[i]));
        i = i + 1;
    }
    let rms: Single = sum.div(Single::from_whole(in_buf.len() as u64)).sqrt();
    threshold.lt(rms)
}

/// Whether every sample is zero, of either sign.
pub open spec fn is_silent(x: Seq<Num>) -> bool {
    forall|i: int| 0 <= i < x.len() ==> (#[trigger] x[i]).is_zero()
}

proof fn lemma_silent_square_sum(x: Seq<Num>, end: nat)
    requires
        is_silent(x),
        end <= x.len(),
    ensures
        square_sum(x, end) == zero32(),
    decreases end,
{
    if end > 0 {
        lemma_silent_square_sum(x, (end - 1) as nat);
        let v = x[end - 1];
        assert(v.is_zero());
        assert(v->mant * v->mant == 0) by (nonlinear_arith)
            requires
                v->mant == 0,
        ;
        assert(prod32(v, v) == zero32());
        lemma_append_none(0);
        assert(sum32(zero32(), zero32()) == zero32());
    }
}

/// A silent frame holds no voice, whatever the threshold, as long as that is not below
/// zero.
pub proof fn lemma_silence_is_not_voiced(x: Seq<Num>, threshold: Num)
    requires
        is_silent(x),
        x.len() > 0,
        !threshold.below(zero32()),
    ensures
        !threshold.below(root_mean_square(x)),
{
    let f = binary32();
    let n = x.len();
    lemma_silent_square_sum(x, n);
    lemma_round_digits(f, n, 0, false);
    vstd::arithmetic::power2::lemma2_to64();
    let w = whole32(n);
    if w is Finite {
        let e = f.quantum(n, 0);
        if e <= 0 {
            let d = pow2((-e) as nat);
            lemma_pow2_pos((-e) as nat);
            assert(n * d > 0) by (nonlinear_arith)
                requires
                    n > 0,
                    d > 0,
            ;
        }
        assert(w->mant > 0);
        let k = pow2(2 * f.precision);
        assert(0nat * k == 0) by (nonlinear_arith);
        assert(0nat / w->mant == 0 && 0nat % w->mant == 0) by {
            vstd::arithmetic::div_mod::lemma_div_basics(w->mant as int);
            vstd::arithmetic::div_mod::lemma_small_mod(0, w->mant);
        }
        assert(quot32(zero32(), w) == zero32());
    } else {
        assert(quot32(zero32(), w) == zero32());
    }
    assert(root_mean_square(x) == zero32());
}

/// The last forward coefficient is the last feedback coefficient.
pub proof fn lemma_last_coefficients_agree(r: Seq<Num>, steps: nat)
    requires
        steps > 0,
    ensures
        levinson_durbin(r, steps).forward.last() == levinson_durbin(r, steps).feedback.last(),
{
    lemma_levinson_durbin_len(r, steps);
    lemma_levinson_durbin_len(r, (steps - 1) as nat);
}

/// More steps leave the feedback coefficients of the steps before as they are.
pub proof fn lemma_feedback_is_stable(r: Seq<Num>, fewer: nat, more: nat)
    requires
        fewer <= more,
    ensures
        levinson_durbin(r, more).feedback.take(fewer as int) == levinson_durbin(r, fewer).feedback,
    decreases more,
{
    lemma_levinson_durbin_len(r, more);
    lemma_levinson_durbin_len(r, fewer);
    if fewer < more {
        lemma_feedback_is_stable(r, fewer, (more - 1) as nat);
        lemma_levinson_durbin_len(r, (more - 1) as nat);
        assert(levinson_durbin(r, more).feedback.take(fewer as int) =~= levinson_durbin(
            r,
            (more - 1) as nat,
        ).feedback.take(fewer as int));
    } else {
        assert(levinson_durbin(r, more).feedback.take(fewer as int) =~= levinson_durbin(
            r,
            more,
        ).feedback);
    }
}

} // verus!
