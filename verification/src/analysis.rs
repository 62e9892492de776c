//! From a frame of samples to its formants: which frames are analysed, and what is
//! reported for each.

use crate::channel::{send, sent};
use crate::float::{values, Single};
use crate::formants::{
    companion_entry, companion_matrix, holds_formants, lemma_fewer_formants, lpc_extract_formants,
    Pole,
};
use crate::correlation::total;
use crate::exact::{dyadic, is_number, lemma_dyadic, lemma_order_in_steps};
use crate::loudness::{
    are_multiples, is_comparable_frame, lemma_fraction_between, lemma_loudness_between_samples,
    lemma_loudness_by_energy, lemma_loudness_is_a_number, squares,
};
use crate::lpc::{
    autocorrelation, hamming_window_coefficient, is_voiced, prediction, root_mean_square, shaped,
    LpcPipeline, LPC_ORDER, LPC_WINDOW_LEN,
};
use crate::number::{binary32, diff32, fraction32, prod32, whole32, zero32, Num};
use crate::order::lemma_below_is_strict_order;
use crate::plot::{is_frame, FormantFrame};
use crossbeam::channel::Sender;
use vstd::arithmetic::power2::{lemma2_to64, lemma_pow2_adds, lemma_pow2_pos, pow2};
use vstd::prelude::*;

verus! {

/// The complex pairs that the poles of a filter can form.
pub const FORMANT_COUNT: usize = 9;

/// The values that the autocorrelation has, one more than the filter's order.
pub const AUTOCORRELATION_LEN: usize = 19;

/// Whether a frame of samples holds a voice: its root mean square is over 0.15.
pub open spec fn has_voice(frame: Seq<Num>) -> bool {
    fraction32(15, 100).below(root_mean_square(frame))
}

/// The coefficients of a Hamming window, from the cosines of its angles.
pub open spec fn hamming_window(cosines: Seq<Num>) -> Seq<Num> {
    cosines.map_values(
        |c: Num| diff32(fraction32(54, 100), prod32(fraction32(46, 100), c)),
    )
}

/// Whether `m` is the companion matrix of a filter with the given forward coefficients.
pub open spec fn is_companion(m: Seq<Vec<Single>>, forward: Seq<Num>) -> bool {
    &&& m.len() == forward.len()
    &&& forall|i: int| 0 <= i < m.len() ==> (#[trigger] m[i])@.len() == m.len()
    &&& forall|i: int, j: int|
        0 <= i < m.len() && 0 <= j < m.len() ==> (#[trigger] m[i]@[j])@ == companion_entry(
            forward,
            i,
            j,
        )
}

/// The formants of a frame, the lowest first, with zeros behind them.
#[derive(Clone, Copy)]
pub struct Formants {
    hz: [Single; FORMANT_COUNT],
}

impl View for Formants {
    type V = Seq<Num>;

    closed spec fn view(&self) -> Seq<Num> {
        values(self.hz@)
    }
}

impl Formants {
    /// Every formant is finite.
    #[verifier::type_invariant]
    spec fn are_finite(self) -> bool {
        forall|i: int| 0 <= i < FORMANT_COUNT ==> (#[trigger] self.hz@[i])@ is Finite
    }

    /// No formants at all.
    pub fn none() -> (r: Self)
        ensures
            r@ == Seq::new(FORMANT_COUNT as nat, |i: int| zero32()),
    {
        let r = Formants { hz: [Single::zero(); FORMANT_COUNT] };
        assert(r@ =~= Seq::new(FORMANT_COUNT as nat, |i: int| zero32()));
        r
    }

    /// The formants among the poles of a filter, those with a bandwidth under 400 Hz.
    pub fn of_poles(poles: &[Pole], sample_rate: u32) -> (r: Self)
        ensures
            r@.len() == FORMANT_COUNT,
            holds_formants(r@, poles@, sample_rate as nat, whole32(400)),
    {
        let mut hz: [Single; FORMANT_COUNT] = [Single::zero(); FORMANT_COUNT];
        lpc_extract_formants(poles, &mut hz, sample_rate, Single::from_whole(400));
        Formants { hz }
    }

    /// The lowest four.
    pub fn lowest(&self) -> (r: FormantFrame)
        ensures
            self@.len() == FORMANT_COUNT,
            r@ == self@.take(4),
    {
        proof {
            use_type_invariant(self);
        }
        let hz: [Single; 4] = [self.hz[0], self.hz[1], self.hz[2], self.hz[3]];
        assert(values(hz@) =~= self@.take(4));
        assert(is_frame(values(hz@)));
        match FormantFrame::new(hz) {
            Some(frame) => frame,
            None => FormantFrame::empty(),
        }
    }

    /// The formant at an index.
    pub fn get(&self, idx: usize) -> (r: Single)
        requires
            idx < FORMANT_COUNT,
        ensures
            r@ == self@[idx as int],
    {
        self.hz[idx]
    }
}

/// Whether the formants `after` a frame are the right ones: those among its poles, or the
/// ones `before` where it has none for want of a voice.
pub open spec fn are_next(
    before: Seq<Num>,
    poles: Option<Seq<Pole>>,
    sample_rate: nat,
    after: Seq<Num>,
) -> bool {
    &&& after.len() == FORMANT_COUNT
    &&& match poles {
        Some(p) => holds_formants(after, p, sample_rate, whole32(400)),
        None => after == before,
    }
}

/// Finds the formants of one frame after the other. Those of a frame without a voice are
/// the ones of the frame before.
pub struct Analyzer {
    pub pipeline: LpcPipeline<LPC_ORDER, LPC_WINDOW_LEN, AUTOCORRELATION_LEN>,
    pub window: [Single; LPC_WINDOW_LEN],
    pub formants: Formants,
    pub sample_rate: u32,
}

impl Analyzer {
    /// An analyzer of samples at the given rate; `cosines` holds those of the angles of
    /// the window.
    pub fn new(sample_rate: u32, cosines: &[Single; LPC_WINDOW_LEN]) -> (r: Self)
        ensures
            r.sample_rate == sample_rate,
            values(r.window@) == hamming_window(values(cosines@)),
            r.formants@ == Seq::new(FORMANT_COUNT as nat, |i: int| zero32()),
            forall|i: int|
                0 <= i < LPC_ORDER ==> (#[trigger] r.pipeline.filter_coeffs.b@[i])@ == zero32(),
            forall|i: int|
                0 <= i < LPC_ORDER ==> (#[trigger] r.pipeline.filter_coeffs.a@[i])@ == zero32(),
            forall|i: int|
                0 <= i < LPC_WINDOW_LEN ==> (#[trigger] r.pipeline.window@[i])@ == zero32(),
            forall|i: int|
                0 <= i < AUTOCORRELATION_LEN ==> (#[trigger] r.pipeline.autocorrelation@[i])@
                    == zero32(),
    {
        let zero: Single = Single::zero();
        let mut window: [Single; LPC_WINDOW_LEN] = [zero; LPC_WINDOW_LEN];
        let mut i: usize = 0;
        while i < LPC_WINDOW_LEN
            invariant
                i <= LPC_WINDOW_LEN,
                forall|k: int|
                    0 <= k < i ==> (#[trigger] window@[k])@ == hamming_window(
                        values(cosines@),
                    )[k],
            decreases LPC_WINDOW_LEN - i,
        {
            window[i] = hamming_window_coefficient(cosines[i]);
            i = i + 1;
        }
        assert(values(window@) =~= hamming_window(values(cosines@)));
        Analyzer {
            pipeline: LpcPipeline::default(),
            window,
            formants: Formants::none(),
            sample_rate,
        }
    }

    /// Starts on a frame. If it holds a voice, the result is the matrix whose eigenvalues
    /// are the poles of the filter behind the voice.
    pub fn start(&mut self, frame: &[Single; LPC_WINDOW_LEN]) -> (r: Option<Vec<Vec<Single>>>)
        ensures
            match r {
                Some(m) => {
                    let x = shaped(values(frame@), values(old(self).window@));
                    let p = prediction(
                        values(frame@),
                        values(old(self).window@),
                        LPC_ORDER as nat,
                    );
                    &&& has_voice(values(frame@))
                    &&& is_companion(m@, p.forward)
                    &&& values(final(self).pipeline.window@) == x
                    &&& values(final(self).pipeline.autocorrelation@) == autocorrelation(
                        x,
                        LPC_ORDER as nat,
                    )
                    &&& values(final(self).pipeline.filter_coeffs.b@) == p.forward
                    &&& values(final(self).pipeline.filter_coeffs.a@) == p.feedback
                },
                None => !has_voice(values(frame@)) && *final(self) == *old(self),
            },
            final(self).window == old(self).window,
            final(self).formants == old(self).formants,
            final(self).sample_rate == old(self).sample_rate,
    {
        if !is_voiced(frame, Single::fraction(15, 100)) {
            return None;
        }
        let (b, _a) = self.pipeline.run_once(frame, &self.window);
        let m: Vec<Vec<Single>> = companion_matrix(b);
        Some(m)
    }

    /// Ends a frame, with the poles of the filter if it held a voice, and returns the
    /// lowest four formants.
    pub fn finish(&mut self, poles: Option<&[Pole]>) -> (r: FormantFrame)
        ensures
            are_next(
                old(self).formants@,
                match poles {
                    Some(p) => Some(p@),
                    None => None,
                },
                old(self).sample_rate as nat,
                final(self).formants@,
            ),
            poles is None ==> final(self).formants == old(self).formants,
            r@ == final(self).formants@.take(4),
            final(self).pipeline == old(self).pipeline,
            final(self).window == old(self).window,
            final(self).sample_rate == old(self).sample_rate,
    {
        if let Some(p) = poles {
            self.formants = Formants::of_poles(p, self.sample_rate);
        }
        self.formants.lowest()
    }

    /// Ends a frame and sends its formants on; they are dropped where that would block.
    /// Returns them, and whether they were sent.
    pub fn report(&mut self, poles: Option<&[Pole]>, tx: &mut Sender<FormantFrame>) -> (r: (
        FormantFrame,
        bool,
    ))
        ensures
            are_next(
                old(self).formants@,
                match poles {
                    Some(p) => Some(p@),
                    None => None,
                },
                old(self).sample_rate as nat,
                final(self).formants@,
            ),
            poles is None ==> final(self).formants == old(self).formants,
            r.0@ == final(self).formants@.take(4),
            sent(*final(tx)) == sent(*old(tx)).push((r.0@, r.1)),
            final(self).pipeline == old(self).pipeline,
            final(self).window == old(self).window,
            final(self).sample_rate == old(self).sample_rate,
    {
        let frame: FormantFrame = self.finish(poles);
        let accepted: bool = send(tx, frame);
        (frame, accepted)
    }
}

/// A frame of samples and the poles of the filter behind it.
pub struct Heard {
    pub frame: Seq<Num>,
    pub poles: Seq<Pole>,
}

impl Heard {
    /// The poles that count: none where the frame holds no voice.
    pub open spec fn voiced_poles(self) -> Option<Seq<Pole>> {
        if has_voice(self.frame) {
            Some(self.poles)
        } else {
            None
        }
    }
}

/// The poles of the latest frame with a voice.
pub open spec fn latest_voice(heard: Seq<Heard>) -> Option<Seq<Pole>>
    decreases heard.len(),
{
    if heard.len() == 0 {
        None
    } else if has_voice(heard.last().frame) {
        Some(heard.last().poles)
    } else {
        latest_voice(heard.drop_last())
    }
}

/// Whether `formants` are those that an analyzer holds before the first frame, and after
/// each of the frames that follow.
pub open spec fn is_course(
    formants: Seq<Seq<Num>>,
    heard: Seq<Heard>,
    sample_rate: nat,
) -> bool {
    &&& formants.len() == heard.len() + 1
    &&& formants[0] == Seq::new(FORMANT_COUNT as nat, |i: int| zero32())
    &&& forall|i: int|
        0 <= i < heard.len() ==> are_next(
            formants[i],
            (#[trigger] heard[i]).voiced_poles(),
            sample_rate,
            formants[i + 1],
        )
}

/// Whatever frames there are, each report has the lowest four formants of the latest frame
/// with a voice, or four zeros before there was one.
#[verifier::rlimit(40)]
pub proof fn lemma_reports_of_stream(
    formants: Seq<Seq<Num>>,
    heard: Seq<Heard>,
    sample_rate: nat,
)
    requires
        is_course(formants, heard, sample_rate),
    ensures
        formants.last().len() == FORMANT_COUNT,
        match latest_voice(heard) {
            Some(poles) => holds_formants(
                formants.last().take(4),
                poles,
                sample_rate,
                whole32(400),
            ),
            None => formants.last().take(4) == seq![zero32(), zero32(), zero32(), zero32()],
        },
{
    lemma_formants_of_stream(formants, heard, sample_rate);
    lemma_lowest_four(formants.last(), latest_voice(heard), sample_rate);
}

/// The front of the formants of the latest voice, or of none.
proof fn lemma_lowest_four(all: Seq<Num>, voice: Option<Seq<Pole>>, sample_rate: nat)
    requires
        all.len() == FORMANT_COUNT,
        match voice {
            Some(poles) => holds_formants(all, poles, sample_rate, whole32(400)),
            None => all == Seq::new(FORMANT_COUNT as nat, |i: int| zero32()),
        },
    ensures
        match voice {
            Some(poles) => holds_formants(all.take(4), poles, sample_rate, whole32(400)),
            None => all.take(4) == seq![zero32(), zero32(), zero32(), zero32()],
        },
{
    match voice {
        Some(poles) => {
            lemma_fewer_formants(all, poles, sample_rate, whole32(400), 4);
        },
        None => {
            assert(all.take(4) =~= seq![zero32(), zero32(), zero32(), zero32()]);
        },
    }
}

#[verifier::rlimit(40)]
proof fn lemma_formants_of_stream(
    formants: Seq<Seq<Num>>,
    heard: Seq<Heard>,
    sample_rate: nat,
)
    requires
        is_course(formants, heard, sample_rate),
    ensures
        formants.last().len() == FORMANT_COUNT,
        match latest_voice(heard) {
            Some(poles) => holds_formants(formants.last(), poles, sample_rate, whole32(400)),
            None => formants.last() == Seq::new(FORMANT_COUNT as nat, |i: int| zero32()),
        },
    decreases heard.len(),
{
    if heard.len() > 0 {
        let front = heard.drop_last();
        let earlier = formants.drop_last();
        assert forall|i: int| 0 <= i < front.len() implies are_next(
            earlier[i],
            (#[trigger] front[i]).voiced_poles(),
            sample_rate,
            earlier[i + 1],
        ) by {
            assert(front[i] == heard[i]);
        }
        lemma_formants_of_stream(earlier, front, sample_rate);
        assert(heard[heard.len() - 1] == heard.last());
    }
}

/// The threshold of a voice in numbers.
#[verifier::rlimit(40)]
proof fn lemma_threshold()
    ensures
        dyadic(153, 10).at_most(fraction32(15, 100)),
        fraction32(15, 100).below(dyadic(154, 10)),
        binary32().holds(fraction32(15, 100)),
        is_number(dyadic(153, 10)),
        is_number(dyadic(154, 10)),
{
    let f = binary32();
    lemma2_to64();
    lemma_fraction_between(15, 100, 153, 10);
    lemma_fraction_between(15, 100, 615, 12);
    lemma_dyadic(153, 10);
    lemma_dyadic(154, 10);
    lemma_dyadic(615, 12);
    lemma_pow2_adds(137, 2);
    lemma_pow2_pos(137);
    lemma_order_in_steps(dyadic(615, 12), dyadic(154, 10));
    let v = fraction32(15, 100);
    lemma_below_is_strict_order(f, dyadic(154, 10), v, dyadic(615, 12));
}

/// A loudness on one side of 0.15.
#[verifier::rlimit(40)]
proof fn lemma_loud_or_quiet(frame: Seq<Num>)
    requires
        binary32().holds(root_mean_square(frame)),
    ensures
        root_mean_square(frame).at_most(dyadic(153, 10)) ==> !has_voice(frame),
        dyadic(154, 10).at_most(root_mean_square(frame)) ==> has_voice(frame),
{
    let f = binary32();
    let v = root_mean_square(frame);
    let t = fraction32(15, 100);
    lemma_threshold();
    lemma_below_is_strict_order(f, v, dyadic(153, 10), t);
    lemma_below_is_strict_order(f, t, v, v);
    lemma_below_is_strict_order(f, dyadic(154, 10), v, t);
    lemma_below_is_strict_order(f, v, t, dyadic(154, 10));
}

/// The squares of a frame at the threshold add up without rounding.
proof fn lemma_levels(n: nat)
    requires
        n <= 700,
    ensures
        n * (153nat * 153nat) < 0x100_0000,
        n * (154nat * 154nat) < 0x100_0000,
{
    assert(n * (153nat * 153nat) == n * 23409 && n * (154nat * 154nat) == n * 23716)
        by (nonlinear_arith);
}

/// A frame with no sample over 153/1024, about 0.149, holds no voice, and one with no
/// sample under 154/1024, about 0.150, holds one; the signs do not matter.
pub proof fn lemma_voice_by_size(frame: Seq<Num>)
    requires
        0 < frame.len() <= 700,
        is_comparable_frame(frame),
    ensures
        (forall|i: int|
            0 <= i < frame.len() ==> (#[trigger] frame[i]).magnitude().at_most(dyadic(153, 10)))
            ==> !has_voice(frame),
        (forall|i: int|
            0 <= i < frame.len() ==> dyadic(154, 10).at_most((#[trigger] frame[i]).magnitude()))
            ==> has_voice(frame),
{
    lemma_levels(frame.len());
    lemma_loudness_between_samples(frame, 153, 10);
    lemma_loudness_between_samples(frame, 154, 10);
    lemma_loudness_is_a_number(frame);
    lemma_loud_or_quiet(frame);
}

/// A frame holds a voice by the mean of its squares, not by single samples: for samples
/// that are multiples `k` of `2^-s`, none where the mean is at most the square of 153/1024,
/// and one where it is at least the square of 154/1024.
pub proof fn lemma_voice_by_energy(frame: Seq<Num>, k: Seq<int>, s: nat)
    requires
        0 < frame.len() <= 700,
        are_multiples(frame, k, s),
        2 * s <= 149,
        total(squares(k)) < 0x100_0000,
    ensures
        total(squares(k)) * pow2(20) <= frame.len() * (153 * 153) * pow2(2 * s) ==> !has_voice(
            frame,
        ),
        total(squares(k)) * pow2(20) >= frame.len() * (154 * 154) * pow2(2 * s) ==> has_voice(
            frame,
        ),
{
    lemma_levels(frame.len());
    lemma_loudness_by_energy(frame, k, s, 153, 10);
    lemma_loudness_by_energy(frame, k, s, 154, 10);
    lemma_loudness_is_a_number(frame);
    lemma_loud_or_quiet(frame);
}

} // verus!
