//! What the operations of the library do, from what goes in to what comes out: each law is
//! on any call of an operation, by what its contract promises of the call.

use crate::analysis::{lemma_voice_by_energy, lemma_voice_by_size, Analyzer};
use crate::audio::{
    enqueue_first_channel, interleaved_channels, lemma_first_channel_comes_back, ChunkBuffer,
    Filling,
};
use crate::channel::{dequeued, each_accepted, each_taken, enqueued, received, sent};
use crate::continuity::{
    are_content, are_near, is_nearest_to, is_number_frame, is_usual, lemma_assignment_continues,
    lemma_count_at_most, lemma_count_is_growth, lemma_fresh_start, lemma_same_frame_again,
    lemma_voice_goes_on,
};
use crate::correlation::{steps, total};
use crate::equations::{left_side, one};
use crate::exact::{dyadic, is_number};
use crate::exact_filters::{
    is_clean_run, lag_products, lemma_autocorrelation_in_numbers, lemma_clean_run,
    lemma_companion_of_polynomial, lemma_prediction_solves, polynomial, power, row_products,
    same_values,
};
use crate::float::{values, Double, Single};
use crate::formants::{
    companion_matrix, lemma_fewer_formants, lemma_formants_are_lowest, lpc_extract_formants,
    pole_frequency, pole_magnitude, Pole,
};
use crate::framer::{can_cut, lemma_frames_one_by_one, LpcFramer};
use crate::loudness::{are_multiples, is_comparable_frame, lemma_loudness_in_numbers, squares};
use crate::lpc::{
    autocorrelation, hamming_angle, hamming_window_coefficient, is_voiced, lpc_autocorrelate_arr,
    lpc_levinson_durbin_arr, lpc_window_and_pre_emphasize_arr, shaped, LpcPipeline, Recursion,
    LPC_WINDOW_LEN,
};
use crate::number::{
    binary32, binary64, diff32, fraction32, prod32, sum32, units, whole32, whole64, widen, zero32,
    Num,
};
use crate::overlay::{
    band_for_slot, can_be_dashed, dashed_hline, formant_band, lemma_dashes_in_numbers,
    lemma_lane_in_numbers, plot_width, visible_range, Band,
};
use crate::laws::{lemma_convert_exact, lemma_whole_exact, lemma_whole_order};
use crate::phoneme::{choice, lemma_targets_in_sync, FormantTarget, Phoneme, PhonemeSelection};
use crate::plot::{
    coordinates, formant_points, frame_values, lemma_formant_has_point, lemma_point_has_formant,
    FormantFrame, FormantPlot, Position,
};
use crate::resonance::{
    lemma_distance_in_numbers, lemma_report_is_a_resonance, lemma_resonance_is_reported,
    resonates,
};
use crate::tracking::{assign_formants, assignment, distance, is_present, lemma_steady_voice};
use crate::windowing::{lemma_angle_in_numbers, lemma_shape_of_an_impulse, lemma_window_fades};
use crossbeam::channel::Sender;
use heapless::spsc::{Consumer, Producer};
use std::collections::VecDeque;
use vstd::arithmetic::power2::{lemma2_to64, pow2};
use vstd::prelude::*;

verus! {

/// The analyzer that is made from the cosines of a window's angles fades every frame out
/// towards its edges: its coefficient is 0.54 - 0.46 where the cosine is 1, 0.54 + 0.46
/// where it is -1, and of two coefficients the one with the larger cosine is not the larger.
pub proof fn law_new_analyzer_fades(
    sample_rate: u32,
    cosines: &[Single; LPC_WINDOW_LEN],
    r: Analyzer,
    i: int,
    j: int,
)
    requires
        call_ensures(Analyzer::new, (sample_rate, cosines), r),
        0 <= i < LPC_WINDOW_LEN,
        0 <= j < LPC_WINDOW_LEN,
        is_number(cosines@[i]@),
        is_number(cosines@[j]@),
    ensures
        r.sample_rate == sample_rate,
        cosines@[i]@ == whole32(1) ==> r.window@[i]@ == diff32(
            fraction32(54, 100),
            fraction32(46, 100),
        ),
        cosines@[i]@ == whole32(1).minus() ==> r.window@[i]@ == sum32(
            fraction32(54, 100),
            fraction32(46, 100),
        ),
        cosines@[i]@ == whole32(1) ==> r.window@[i]@.at_most(dyadic(82, 10)),
        cosines@[i]@ == whole32(1).minus() ==> dyadic(1023, 10).at_most(r.window@[i]@),
        cosines@[i]@.at_most(cosines@[j]@) ==> r.window@[j]@.at_most(r.window@[i]@),
{
    let c = values(cosines@);
    assert(c[i] == cosines@[i]@ && c[j] == cosines@[j]@);
    lemma_window_fades(c, i, j);
    assert(values(r.window@)[i] == r.window@[i]@ && values(r.window@)[j] == r.window@[j]@);
}

/// A frame with no sample over 153/1024, about 0.149, is not analysed; one with no sample
/// under 154/1024, about 0.150, is.
pub proof fn law_start_goes_by_size(
    analyzer: &mut Analyzer,
    frame: &[Single; LPC_WINDOW_LEN],
    r: Option<Vec<Vec<Single>>>,
)
    requires
        call_ensures(Analyzer::start, (analyzer, frame), r),
        is_comparable_frame(values(frame@)),
    ensures
        (forall|i: int|
            0 <= i < LPC_WINDOW_LEN ==> (#[trigger] frame@[i])@.magnitude().at_most(
                dyadic(153, 10),
            )) ==> r is None && *final(analyzer) == *old(analyzer),
        (forall|i: int|
            0 <= i < LPC_WINDOW_LEN ==> dyadic(154, 10).at_most(
                (#[trigger] frame@[i])@.magnitude(),
            )) ==> r is Some,
{
    let x = values(frame@);
    lemma_voice_by_size(x);
    if forall|i: int|
        0 <= i < LPC_WINDOW_LEN ==> (#[trigger] frame@[i])@.magnitude().at_most(dyadic(153, 10)) {
        assert forall|i: int| 0 <= i < x.len() implies (#[trigger] x[i]).magnitude().at_most(
            dyadic(153, 10),
        ) by {
            assert(x[i] == frame@[i]@);
        }
    }
    if forall|i: int|
        0 <= i < LPC_WINDOW_LEN ==> dyadic(154, 10).at_most((#[trigger] frame@[i])@.magnitude()) {
        assert forall|i: int| 0 <= i < x.len() implies dyadic(154, 10).at_most(
            (#[trigger] x[i]).magnitude(),
        ) by {
            assert(x[i] == frame@[i]@);
        }
    }
}

/// A frame is analysed by the mean of its squares: for samples that are multiples `k` of
/// `2^-s`, not where it is at most the square of 153/1024, but where it is at least that of
/// 154/1024.
pub proof fn law_start_goes_by_energy(
    analyzer: &mut Analyzer,
    frame: &[Single; LPC_WINDOW_LEN],
    r: Option<Vec<Vec<Single>>>,
    k: Seq<int>,
    s: nat,
)
    requires
        call_ensures(Analyzer::start, (analyzer, frame), r),
        are_multiples(values(frame@), k, s),
        2 * s <= 149,
        total(squares(k)) < 0x100_0000,
    ensures
        total(squares(k)) * pow2(20) <= LPC_WINDOW_LEN * (153 * 153) * pow2(2 * s) ==> r is None,
        total(squares(k)) * pow2(20) >= LPC_WINDOW_LEN * (154 * 154) * pow2(2 * s) ==> r is Some,
{
    lemma_voice_by_energy(values(frame@), k, s);
}

/// A frame whose squares have the mean `m * m` is voiced just where the threshold is below
/// `m`: for samples that are multiples `k` of `2^-s`, and `m` as well.
pub proof fn law_is_voiced(
    in_buf: &[Single],
    threshold: Single,
    r: bool,
    k: Seq<int>,
    s: nat,
    m: nat,
)
    requires
        call_ensures(is_voiced, (in_buf, threshold), r),
        0 < in_buf@.len() < 0x100_0000,
        are_multiples(values(in_buf@), k, s),
        2 * s <= 149,
        total(squares(k)) == in_buf@.len() * (m * m),
        total(squares(k)) < 0x100_0000,
        m > 0,
    ensures
        r == threshold@.below(dyadic(m, s)),
{
    lemma_loudness_in_numbers(values(in_buf@), k, s, m);
}

/// The autocorrelation at a lag is the sum of the products of samples that far apart: for
/// samples that are multiples `k` of `2^-s`.
pub proof fn law_autocorrelate<const ORDER: usize, const N: usize, const X_A_LEN: usize>(
    x: &[Single; N],
    x_a: &mut [Single; X_A_LEN],
    k: Seq<int>,
    s: nat,
    lag: nat,
)
    requires
        call_ensures(lpc_autocorrelate_arr::<ORDER, N, X_A_LEN>, (x, x_a), ()),
        X_A_LEN == ORDER + 1,
        are_multiples(values(x@), k, s),
        2 * s <= 149,
        total(squares(k)) < 0x100_0000,
        lag <= ORDER,
    ensures
        is_number(final(x_a)@[lag as int]@),
        steps(final(x_a)@[lag as int]@) == total(lag_products(k, lag)) * pow2(
            (149 - 2 * s) as nat,
        ),
{
    lemma_autocorrelation_in_numbers(values(x@), k, s, ORDER as nat, lag);
    assert(values(final(x_a)@)[lag as int] == final(x_a)@[lag as int]@);
}

/// The forward coefficients solve the normal equations, and are those that the recursion has
/// without rounding, wherever all its values have few enough digits.
pub proof fn law_levinson_durbin<const ORDER: usize, const X_A_LEN: usize>(
    x_a: &[Single; X_A_LEN],
    b: &mut [Single; ORDER],
    a: &mut [Single; ORDER],
    run: Seq<Recursion>,
    s: nat,
    limit: int,
    i: int,
)
    requires
        call_ensures(lpc_levinson_durbin_arr::<ORDER, X_A_LEN>, (x_a, b, a), ()),
        ORDER < X_A_LEN,
        is_clean_run(values(x_a@), run, ORDER as nat, s, limit),
        2 * s <= 149,
        pow2(s) <= limit,
        (ORDER + 2) * (limit * limit) < 0x100_0000,
        1 <= i <= ORDER,
    ensures
        same_values(values(final(b)@), run[ORDER as int].forward),
        left_side(values(x_a@), values(final(b)@), i) == 0,
{
    lemma_clean_run(values(x_a@), run, ORDER as nat, s, limit, ORDER as nat);
}

/// What is written for the poles of a filter: the frequency of each that resonates between
/// 250 Hz and 200 Hz under half the sample rate, with a bandwidth under the limit, unless
/// the room is full of others that are no higher; and nothing else, but zeros.
#[verifier::rlimit(40)]
pub proof fn law_extract_formants(
    poles: &[Pole],
    out_buf: &mut [Single],
    sample_rate: u32,
    bandwidth_max: Single,
    i: int,
    j: int,
)
    requires
        call_ensures(lpc_extract_formants, (poles, out_buf, sample_rate, bandwidth_max), ()),
        400 < sample_rate < 0x100_0000,
        0 <= i < poles@.len(),
        0 <= j < old(out_buf)@.len(),
    ensures
        final(out_buf)@.len() == old(out_buf)@.len(),
        resonates(poles@[i], sample_rate as nat, bandwidth_max@) ==> ({
            let v = pole_frequency(poles@[i].theta@, sample_rate as nat);
            ||| values(final(out_buf)@).contains(v)
            ||| whole32(250).below(final(out_buf)@[j]@) && !v.below(final(out_buf)@[j]@)
        }),
        resonates(poles@[i], sample_rate as nat, bandwidth_max@) && poles@.len() <= old(
            out_buf,
        )@.len() ==> values(final(out_buf)@).contains(
            pole_frequency(poles@[i].theta@, sample_rate as nat),
        ),
        final(out_buf)@[j]@ == zero32() || exists|p: int|
            0 <= p < poles@.len() && resonates(
                #[trigger] poles@[p],
                sample_rate as nat,
                bandwidth_max@,
            ) && final(out_buf)@[j]@ == pole_frequency(poles@[p].theta@, sample_rate as nat),
        forall|p: int, q: int|
            0 <= p < q < final(out_buf)@.len() && (#[trigger] final(out_buf)@[q])@ != zero32()
                ==> !final(out_buf)@[q]@.below((#[trigger] final(out_buf)@[p])@),
{
    let out = values(final(out_buf)@);
    let rate = sample_rate as nat;
    assert(out[j] == final(out_buf)@[j]@);
    if resonates(poles@[i], rate, bandwidth_max@) {
        lemma_resonance_is_reported(out, poles@, rate, bandwidth_max@, i);
    }
    lemma_report_is_a_resonance(out, poles@, rate, bandwidth_max@, j);
    lemma_formants_are_lowest(out, poles@, rate, bandwidth_max@);
    let all = crate::formants::formant_frequencies(poles@, rate, bandwidth_max@);
    let n = if all.len() < out.len() {
        all.len() as int
    } else {
        out.len() as int
    };
    assert forall|p: int, q: int|
        0 <= p < q < final(out_buf)@.len() && (#[trigger] final(out_buf)@[q])@
            != zero32() implies !final(out_buf)@[q]@.below((#[trigger] final(out_buf)@[p])@) by {
        assert(out[p] == final(out_buf)@[p]@ && out[q] == final(out_buf)@[q]@);
        assert(q < n);
        assert(out.take(n)[p] == out[p] && out.take(n)[q] == out[q]);
    }
}

/// The distance of a pole at the multiples `a` and `b` of `2^-s` is `c` of them, where
/// `a * a + b * b == c * c`.
pub proof fn law_pole_magnitude(
    re: Single,
    im: Single,
    r: Single,
    a: int,
    b: int,
    c: nat,
    s: nat,
)
    requires
        call_ensures(pole_magnitude, (re, im), r),
        is_number(re@),
        is_number(im@),
        2 * s <= 149,
        steps(re@) == a * pow2((149 - s) as nat),
        steps(im@) == b * pow2((149 - s) as nat),
        a * a + b * b == c * c,
        0 < c < 4096,
    ensures
        r@ == dyadic(c, s),
{
    lemma_distance_in_numbers(re@, im@, a, b, c, s);
}

/// A frame in which some formant is no more than 400 Hz from the last F1, and nearer to it
/// than to the last of any other, counts, and is recorded with an F1 that is no farther; and
/// every formant of it that is near the last one of some slot goes to that slot, unless a
/// nearer pair claims one of them.
#[verifier::rlimit(40)]
pub proof fn law_record_goes_on(
    plot: &mut FormantPlot,
    raw: FormantFrame,
    r: bool,
    first: int,
    slot: int,
    i: int,
)
    requires
        call_ensures(FormantPlot::record, (plot, raw), r),
        is_number_frame(raw@),
        is_number_frame(old(plot)@.last_valid),
        0 <= first < 4,
        is_present(raw@[first]),
        is_present(old(plot)@.last_valid[0]),
        are_near(raw@[first], old(plot)@.last_valid[0]),
        is_nearest_to(old(plot)@.last_valid, 0, raw@[first]),
        0 <= slot < 4,
        0 <= i < 4,
        is_present(raw@[i]),
        is_present(old(plot)@.last_valid[slot]),
        are_near(raw@[i], old(plot)@.last_valid[slot]),
    ensures
        r,
        final(plot)@.history.len() > 0,
        final(plot)@.history.last() == final(plot)@.last_valid,
        is_present(final(plot)@.last_valid[0]),
        !distance(raw@[first], old(plot)@.last_valid[0]).below(
            distance(final(plot)@.last_valid[0], old(plot)@.last_valid[0]),
        ),
        are_content(old(plot)@.last_valid, final(plot)@.last_valid, slot, raw@[i]),
{
    let t = old(plot)@;
    let threshold = old(plot).history_threshold as nat;
    lemma_voice_goes_on(t, threshold, raw@, first, slot, i);
    if !r {
        // the track would be the same, and with it the slots that made it count
        assert(final(plot)@ == t);
        crate::continuity::lemma_first_slot_counts(t, raw@, first);
    }
}

/// A frame equal to the last one that counted is recorded once more, unchanged, whatever
/// ranges its formants lie in.
pub proof fn law_record_same_again(plot: &mut FormantPlot, raw: FormantFrame, r: bool)
    requires
        call_ensures(FormantPlot::record, (plot, raw), r),
        raw@ == old(plot)@.last_valid,
        is_number_frame(raw@),
        is_present(raw@[0]),
        forall|i: int| 0 <= i < 4 ==> is_present(#[trigger] raw@[i]) || raw@[i] == zero32(),
    ensures
        r,
        final(plot)@.last_valid == raw@,
        final(plot)@.history.len() > 0,
        final(plot)@.history.last() == raw@,
        old(plot)@.history.len() < old(plot).history_threshold ==> final(plot)@.history == old(
            plot,
        )@.history.push(raw@),
{
    let t = old(plot)@;
    lemma_same_frame_again(t, old(plot).history_threshold as nat);
    crate::continuity::lemma_same_frame_counts(t);
}

/// What a frame does to a plot: nothing, where it does not count; else it is put at the end
/// of the history, from which only the oldest leaves where it was full, with an F1, and each
/// of its formants is one of the raw ones that is near the last one of its slot or in the
/// usual range.
pub proof fn law_record(plot: &mut FormantPlot, raw: FormantFrame, r: bool, slot: int)
    requires
        call_ensures(FormantPlot::record, (plot, raw), r),
        is_number_frame(raw@),
        is_number_frame(old(plot)@.last_valid),
        0 <= slot < 4,
    ensures
        !r ==> final(plot)@ == old(plot)@,
        r ==> {
            let (t, n) = (old(plot)@, final(plot)@);
            &&& n.history.len() > 0
            &&& n.history.last() == n.last_valid
            &&& is_present(n.last_valid[0])
            &&& t.history.len() < old(plot).history_threshold ==> n.history.drop_last()
                == t.history
            &&& t.history.len() >= old(plot).history_threshold && t.history.len() > 0
                ==> n.history.drop_last() == t.history.skip(1)
            &&& n.last_valid[slot] == zero32() || {
                &&& raw@.contains(n.last_valid[slot])
                &&& is_usual(slot, n.last_valid[slot]) || (is_present(t.last_valid[slot])
                    && !whole32(400).below(
                    distance(n.last_valid[slot], t.last_valid[slot]),
                ))
            }
        },
{
    crate::continuity::lemma_counted_frame(
        old(plot)@,
        old(plot).history_threshold as nat,
        raw@,
        slot,
    );
}

/// After a silence each slot takes the first raw formant in its usual range, and stays empty
/// where there is none.
pub proof fn law_assign_after_silence(
    raw: &[Single; 4],
    last_confirmed: &[Single; 4],
    r: [Single; 4],
    slot: int,
    i: int,
)
    requires
        call_ensures(assign_formants, (raw, last_confirmed), r),
        is_number_frame(values(raw@)),
        forall|s: int|
            0 <= s < 4 ==> !is_present((#[trigger] last_confirmed@[s])@) && is_number(
                last_confirmed@[s]@,
            ),
        0 <= slot < 4,
        0 <= i <= 4,
        forall|k: int| 0 <= k < i ==> !is_usual(slot, (#[trigger] raw@[k])@),
    ensures
        i == 4 ==> r@[slot]@ == zero32(),
        i < 4 && is_usual(slot, raw@[i]@) ==> r@[slot]@ == raw@[i]@,
{
    let (v, last) = (values(raw@), values(last_confirmed@));
    assert forall|s: int| 0 <= s < 4 implies !is_present(#[trigger] last[s]) && is_number(
        last[s],
    ) by {
        assert(last[s] == last_confirmed@[s]@);
    }
    assert forall|k: int| 0 <= k < i implies !is_usual(slot, #[trigger] v[k]) by {
        assert(v[k] == raw@[k]@);
    }
    lemma_fresh_start(v, last, slot, i);
    assert(values(r@)[slot] == r@[slot]@);
}

/// Of two interleaved channels the first goes into the queue, sample by sample, up to one
/// that the queue refuses.
pub proof fn law_enqueue_first_channel(
    tx: &mut Producer<'static, Single>,
    interleaved: &[Single],
    r: bool,
    first: Seq<Num>,
    second: Seq<Num>,
)
    requires
        call_ensures(enqueue_first_channel, (tx, interleaved), r),
        first.len() == second.len(),
        values(interleaved@) == interleaved_channels(first, second),
    ensures
        r ==> enqueued(*final(tx)) == enqueued(*old(tx)) + each_accepted(first),
        !r ==> exists|n: int|
            0 <= n < first.len() && enqueued(*final(tx)) == (enqueued(*old(tx)) + each_accepted(
                #[trigger] first.take(n),
            )).push((first[n], false)),
{
    lemma_first_channel_comes_back(first, second);
    assert(first.take(first.len() as int) =~= first);
}

/// Frames are cut one after the other from the samples that were left and the new ones:
/// where there are enough, the first frame is the first `window_size` of them.
pub proof fn law_push_and_maybe_analyze(
    framer: &mut LpcFramer,
    new_samples: &[Single],
    frames: Vec<Vec<Single>>,
)
    requires
        call_ensures(LpcFramer::push_and_maybe_analyze, (framer, new_samples), frames),
        can_cut(
            old(framer).accumulator@.len() + new_samples@.len(),
            old(framer).window_size as nat,
            old(framer).hop_size as nat,
        ),
    ensures
        ({
            let all = old(framer).accumulator@ + new_samples@;
            let window = old(framer).window_size as int;
            let hop = old(framer).hop_size as int;
            &&& all.len() < window ==> frames@.len() == 0 && final(framer).accumulator@ == all
            &&& all.len() >= window ==> frames@.len() > 0 && frames@[0]@ == all.take(window)
            &&& forall|k: int, i: int|
                0 <= k < frames@.len() - 1 && 0 <= i < window - hop
                    ==> #[trigger] frames@[k + 1]@[i] == frames@[k]@[i + hop]
        }),
{
    let all = old(framer).accumulator@ + new_samples@;
    let window = old(framer).window_size as nat;
    let hop = old(framer).hop_size as nat;
    lemma_frames_one_by_one(all, window, hop);
    crate::framer::lemma_frames_overlap(all, window, hop);
    let cut = crate::framer::frames_of(all, window, hop);
    if all.len() >= window {
        assert(frames@[0]@ == cut[0]);
    }
    assert forall|k: int, i: int|
        0 <= k < frames@.len() - 1 && 0 <= i < window - hop implies #[trigger] frames@[k
        + 1]@[i] == frames@[k]@[i + hop] by {
        assert(frames@[k + 1]@ == cut[k + 1] && frames@[k]@ == cut[k]);
        assert(cut[k + 1][i] == cut[k][i + hop]);
    }
}

/// A formant has a point in a plot just where a frame of the history has it: at the number
/// of the frame and the height of the formant.
pub proof fn law_formant_points(
    history: &VecDeque<FormantFrame>,
    idx: usize,
    points: Vec<Position>,
    i: int,
    k: int,
)
    requires
        call_ensures(formant_points, (history, idx), points),
        idx < 4,
        0 <= i < history@.len(),
    ensures
        is_present(history@[i]@[idx as int]) ==> coordinates(points@).contains(
            (whole64(i as nat), widen(history@[i]@[idx as int])),
        ),
        0 <= k < points@.len() ==> exists|n: int|
            {
                &&& 0 <= n < history@.len()
                &&& is_present((#[trigger] history@[n])@[idx as int])
                &&& points@[k]@ == (whole64(n as nat), widen(history@[n]@[idx as int]))
            },
{
    let h = frame_values(history@);
    assert(h[i] == history@[i]@);
    if is_present(history@[i]@[idx as int]) {
        lemma_formant_has_point(h, idx as int, i);
    }
    if 0 <= k < points@.len() {
        assert(coordinates(points@)[k] == points@[k]@);
        lemma_point_has_formant(h, idx as int, k);
        let n = choose|n: int|
            {
                &&& 0 <= n < h.len()
                &&& is_present((#[trigger] h[n])[idx as int])
                &&& coordinates(points@)[k] == (whole64(n as nat), widen(h[n][idx as int]))
            };
        assert(h[n] == history@[n]@);
    }
}

/// The dashes of a line with whole ends: dash `k` starts at `14 * k` from the start, is 8
/// long or ends with the line, and is followed by a gap.
pub proof fn law_dashed_hline(
    x_min: Double,
    x_max: Double,
    y: Double,
    points: Vec<Position>,
    a: nat,
    b: nat,
    k: nat,
)
    requires
        call_ensures(dashed_hline, (x_min, x_max, y), points),
        x_min@ == whole64(a),
        x_max@ == whole64(b),
        b + 14 < 0x20_0000_0000_0000,
        a + 14 * k < b,
    ensures
        3 * k + 2 < points@.len(),
        points@[3 * k as int]@ == (whole64(a + 14 * k), y@),
        a + 14 * k + 8 < b ==> points@[3 * k as int + 1]@ == (whole64(a + 14 * k + 8), y@),
        a + 14 * k + 8 >= b ==> points@[3 * k as int + 1]@ == (whole64(b), y@),
        points@[3 * k as int + 2]@ == (Num::Nan, Num::Nan),
{
    let c = coordinates(points@);
    lemma_dashes_in_numbers(c, a, b, y@, k);
    assert(c[3 * k as int] == points@[3 * k as int]@);
    assert(c[3 * k as int + 1] == points@[3 * k as int + 1]@);
    assert(c[3 * k as int + 2] == points@[3 * k as int + 2]@);
}

/// The lane of a whole mean and deviation lies between the mean less the deviation and the
/// mean and the deviation, from one end of the plot to the other.
pub proof fn law_formant_band(
    mean_std: (Single, Single),
    x_range: (Double, Double),
    r: Band,
    mean: nat,
    std: nat,
)
    requires
        call_ensures(formant_band, (mean_std, x_range), r),
        mean_std.0@ == whole32(mean),
        mean_std.1@ == whole32(std),
        std < mean,
        mean + std < 0x100_0000,
    ensures
        coordinates(r.polygon@) == seq![
            (x_range.0@, whole64((mean - std) as nat)),
            (x_range.1@, whole64((mean - std) as nat)),
            (x_range.1@, whole64(mean + std)),
            (x_range.0@, whole64(mean + std)),
        ],
        r.mean@ == whole64(mean),
{
    lemma_lane_in_numbers(r, mean, std, x_range.0@, x_range.1@);
}

/// What a frame with a voice is answered: of the poles of its filter, each that resonates
/// with a bandwidth under 400 Hz is among the four formants, unless these are all others
/// that are no higher; and a frame without a voice is answered as the one before.
#[verifier::rlimit(40)]
pub proof fn law_finish(
    analyzer: &mut Analyzer,
    poles: Option<&[Pole]>,
    r: FormantFrame,
    i: int,
    j: int,
)
    requires
        call_ensures(Analyzer::finish, (analyzer, poles), r),
        400 < old(analyzer).sample_rate < 0x100_0000,
        0 <= j < 4,
    ensures
        r@.len() == 4,
        poles is None ==> r@ == old(analyzer).formants@.take(4) && final(analyzer).formants@
            == old(analyzer).formants@,
        poles matches Some(p) ==> {
            let rate = old(analyzer).sample_rate as nat;
            &&& 0 <= i < p@.len() && resonates(p@[i], rate, whole32(400)) ==> {
                let v = pole_frequency(p@[i].theta@, rate);
                r@.contains(v) || (whole32(250).below(r@[j]) && !v.below(r@[j]))
            }
            &&& r@[j] == zero32() || exists|q: int|
                0 <= q < p@.len() && resonates(#[trigger] p@[q], rate, whole32(400)) && r@[j]
                    == pole_frequency(p@[q].theta@, rate)
        },
{
    let rate = old(analyzer).sample_rate as nat;
    let out = final(analyzer).formants@;
    if let Some(p) = poles {
        lemma_fewer_formants(out, p@, rate, whole32(400), 4);
        if 0 <= i < p@.len() && resonates(p@[i], rate, whole32(400)) {
            lemma_resonance_is_reported(r@, p@, rate, whole32(400), i);
        }
        lemma_report_is_a_resonance(r@, p@, rate, whole32(400), j);
    }
}

/// A chunk that is handed out is what the buffer held and then what was taken from the
/// queue, `chunk_size` samples in all; without one the buffer holds all of it.
#[verifier::rlimit(40)]
pub proof fn law_fill(
    buffer: &mut ChunkBuffer,
    rx: &mut Consumer<'static, Single>,
    r: Option<Vec<Single>>,
)
    requires
        call_ensures(ChunkBuffer::fill, (buffer, rx), r),
    ensures
        exists|taken: Seq<Num>|
            {
                let all = values(old(buffer).samples@) + taken;
                let attempts = dequeued(*old(rx)) + #[trigger] each_taken(taken);
                match r {
                    Some(chunk) => {
                        &&& dequeued(*final(rx)) == attempts
                        &&& values(chunk@) == all
                        &&& chunk@.len() == old(buffer).chunk_size
                        &&& final(buffer).samples@.len() == 0
                    },
                    None => {
                        &&& dequeued(*final(rx)) == attempts.push(None)
                        &&& values(final(buffer).samples@) == all
                        &&& old(buffer).samples@.len() < old(buffer).chunk_size
                            ==> final(buffer).samples@.len() < old(buffer).chunk_size
                    },
                }
            },
{
    let before = values(old(buffer).samples@);
    let n = old(buffer).chunk_size as nat;
    let f = choose|f: Filling|
        {
            let attempts = dequeued(*old(rx)) + each_taken(f.taken);
            &&& #[trigger] f.follows(n, before)
            &&& f.left == values(final(buffer).samples@)
            &&& match r {
                Some(chunk) => {
                    &&& f.chunk == Some(values(chunk@))
                    &&& dequeued(*final(rx)) == attempts
                },
                None => {
                    &&& f.chunk is None
                    &&& dequeued(*final(rx)) == attempts.push(None)
                },
            }
        };
    let taken = f.taken;
    assert(values(final(buffer).samples@).len() == final(buffer).samples@.len());
    assert(before.len() == old(buffer).samples@.len());
    if let Some(chunk) = r {
        assert(values(chunk@).len() == chunk@.len());
    } else if before.len() < n && before.len() + taken.len() >= n {
        let k = n - before.len();
        assert(before.len() + k == n);
    }
    assert(each_taken(taken) == each_taken(f.taken));
}

/// An update ends when nothing more comes out of the channel, and where the history has room
/// for all that came it has grown by as many frames as were counted.
#[verifier::rlimit(40)]
pub proof fn law_update(plot: &mut FormantPlot, r: u64)
    requires
        call_ensures(FormantPlot::update, (plot,), r),
    ensures
        exists|frames: Seq<Seq<Num>>|
            {
                let attempts = received(old(plot).rx) + #[trigger] each_taken(frames);
                &&& received(final(plot).rx) == if frames.len() < u64::MAX {
                    attempts.push(None)
                } else {
                    attempts
                }
                &&& r <= frames.len()
                &&& old(plot)@.history.len() + frames.len() <= old(plot).history_threshold
                    ==> final(plot)@.history.len() == old(plot)@.history.len() + r
                &&& frames.len() == 0 ==> final(plot)@ == old(plot)@ && r == 0
            },
{
    let t = old(plot)@;
    let threshold = old(plot).history_threshold as nat;
    let frames = choose|frames: Seq<FormantFrame>|
        {
            let attempts = received(old(plot).rx) + each_taken(#[trigger] frame_values(frames));
            &&& frames.len() <= u64::MAX
            &&& received(final(plot).rx) == if frames.len() < u64::MAX {
                attempts.push(None)
            } else {
                attempts
            }
            &&& final(plot)@ == t.record_all(threshold, frame_values(frames))
            &&& r == t.count_valid(threshold, frame_values(frames))
        };
    let v = frame_values(frames);
    assert(v.len() == frames.len());
    lemma_count_at_most(t, threshold, v);
    if t.history.len() + v.len() <= threshold {
        lemma_count_is_growth(t, threshold, v);
    }
    assert(each_taken(v) == each_taken(frame_values(frames)));
}

/// The matrix for a filter has the roots of the filter's polynomial as eigenvalues: it turns
/// the powers of `z`, the highest first, into `z` times themselves, but for the first, where
/// the value of the polynomial is missing. This is stated for whole `z`.
pub proof fn law_companion_matrix(in_buf: &[Single], r: Vec<Vec<Single>>, i: int, z: int)
    requires
        call_ensures(companion_matrix, (in_buf,), r),
        0 <= i < in_buf@.len(),
        forall|j: int| 0 <= j < in_buf@.len() ==> is_number((#[trigger] in_buf@[j])@),
    ensures
        r@.len() == in_buf@.len(),
        r@[i]@.len() == in_buf@.len(),
        total(
            Seq::new(
                in_buf@.len(),
                |j: int| steps(r@[i]@[j]@) * power(z, (in_buf@.len() - 1 - j) as nat),
            ),
        ) == z * (one() * power(z, (in_buf@.len() - 1 - i) as nat)) - if i == 0 {
            polynomial(values(in_buf@), z)
        } else {
            0
        },
{
    let c = values(in_buf@);
    let n = in_buf@.len();
    assert forall|j: int| 0 <= j < c.len() implies is_number(#[trigger] c[j]) by {
        assert(c[j] == in_buf@[j]@);
    }
    lemma_companion_of_polynomial(c, i, z);
    let row = Seq::new(n, |j: int| steps(r@[i]@[j]@) * power(z, (n - 1 - j) as nat));
    assert(row =~= row_products(c, i, z));
}

/// Of a frame that is zero but for sample `i`, that sample is only weighted, and the one
/// behind it is 0.97 times as large, turned round and weighted.
pub proof fn law_window_and_pre_emphasize<const N: usize>(
    x_in: &[Single; N],
    window: &[Single; N],
    x_out: &mut [Single; N],
    i: int,
)
    requires
        call_ensures(lpc_window_and_pre_emphasize_arr::<N>, (x_in, window, x_out), ()),
        0 <= i < N,
        is_number(x_in@[i]@),
        !x_in@[i]@.is_zero(),
    ensures
        i == 0 || x_in@[i - 1]@.is_zero() && is_number(x_in@[i - 1]@) ==> final(x_out)@[i]@
            == prod32(x_in@[i]@, window@[i]@),
        i + 1 < N && x_in@[i + 1]@ == zero32() && !prod32(
            fraction32(97, 100),
            x_in@[i]@,
        ).is_zero() ==> final(x_out)@[i + 1]@ == prod32(
            prod32(fraction32(97, 100), x_in@[i]@).minus(),
            window@[i + 1]@,
        ),
{
    let (x, w, y) = (values(x_in@), values(window@), values(final(x_out)@));
    lemma_shape_of_an_impulse(x, w, i);
    assert(x[i] == x_in@[i]@ && w[i] == window@[i]@ && y[i] == final(x_out)@[i]@);
    if i > 0 {
        assert(x[i - 1] == x_in@[i - 1]@);
    }
    if i + 1 < N {
        assert(x[i + 1] == x_in@[i + 1]@ && w[i + 1] == window@[i + 1]@);
        assert(y[i + 1] == final(x_out)@[i + 1]@);
    }
}

/// The angle of coefficient `i` of a window of `n` is the fraction `i / (n - 1)` of a whole
/// turn of about 25736/4096.
pub proof fn law_hamming_angle(i: usize, n: usize, r: Single, b: nat)
    requires
        call_ensures(hamming_angle, (i, n), r),
        1 < n <= 600,
        i <= n,
        b * (n - 1) < 0x100_0000,
    ensures
        b * (n - 1) <= 25735 * i ==> dyadic(b, 12).at_most(r@),
        b * (n - 1) >= 25736 * i ==> r@.at_most(dyadic(b, 12)),
{
    lemma_angle_in_numbers(i as nat, n as nat, b);
}

/// The formants that an analyzer reports are those with which a frame ends, and they are
/// offered to the channel once: of the poles of a filter, each that resonates with a
/// bandwidth under 400 Hz is among them, unless these are all others that are no higher.
pub proof fn law_report(
    analyzer: &mut Analyzer,
    poles: Option<&[Pole]>,
    tx: &mut Sender<FormantFrame>,
    r: (FormantFrame, bool),
    i: int,
    j: int,
)
    requires
        call_ensures(Analyzer::report, (analyzer, poles, tx), r),
        400 < old(analyzer).sample_rate < 0x100_0000,
        0 <= j < 4,
    ensures
        sent(*final(tx)) == sent(*old(tx)).push((r.0@, r.1)),
        poles is None ==> r.0@ == old(analyzer).formants@.take(4),
        poles matches Some(p) ==> {
            let rate = old(analyzer).sample_rate as nat;
            0 <= i < p@.len() && resonates(p@[i], rate, whole32(400)) ==> {
                let v = pole_frequency(p@[i].theta@, rate);
                r.0@.contains(v) || (whole32(250).below(r.0@[j]) && !v.below(r.0@[j]))
            }
        },
{
    let rate = old(analyzer).sample_rate as nat;
    let out = final(analyzer).formants@;
    if let Some(p) = poles {
        lemma_fewer_formants(out, p@, rate, whole32(400), 4);
        if 0 <= i < p@.len() && resonates(p@[i], rate, whole32(400)) {
            lemma_resonance_is_reported(r.0@, p@, rate, whole32(400), i);
        }
    }
}

/// Each formant that is no more than 400 Hz from the last one of a slot goes to that slot,
/// unless a nearer pair claims one of them.
pub proof fn law_assign_continues(
    raw: &[Single; 4],
    last_confirmed: &[Single; 4],
    r: [Single; 4],
    slot: int,
    i: int,
)
    requires
        call_ensures(assign_formants, (raw, last_confirmed), r),
        is_number_frame(values(raw@)),
        is_number_frame(values(last_confirmed@)),
        0 <= slot < 4,
        0 <= i < 4,
        is_present(raw@[i]@),
        is_present(last_confirmed@[slot]@),
        are_near(raw@[i]@, last_confirmed@[slot]@),
    ensures
        are_content(values(last_confirmed@), values(r@), slot, raw@[i]@),
{
    let (v, last) = (values(raw@), values(last_confirmed@));
    assert(v[i] == raw@[i]@ && last[slot] == last_confirmed@[slot]@);
    lemma_assignment_continues(v, last, slot, i);
}

/// A steady voice keeps its slots: formants that are those of the frame before stay in
/// their slots.
pub proof fn law_assign_steady(
    raw: &[Single; 4],
    last_confirmed: &[Single; 4],
    r: [Single; 4],
    slot: int,
)
    requires
        call_ensures(assign_formants, (raw, last_confirmed), r),
        values(raw@) == values(last_confirmed@),
        is_number_frame(values(raw@)),
        0 <= slot < 4,
    ensures
        r@[slot]@ == if is_present(raw@[slot]@) {
            raw@[slot]@
        } else {
            zero32()
        },
{
    let v = values(raw@);
    lemma_steady_voice(v);
    assert(v[slot] == raw@[slot]@ && values(r@)[slot] == r@[slot]@);
    assert(assignment(v, v)[slot] == values(r@)[slot]);
}

/// A window's coefficient is 0.54 - 0.46 where the cosine is 1 and 0.54 + 0.46 where it is
/// -1, and of two the one with the larger cosine is not the larger.
pub proof fn law_hamming_window_coefficient(c: Single, d: Single, r: Single, t: Single)
    requires
        call_ensures(hamming_window_coefficient, (c,), r),
        call_ensures(hamming_window_coefficient, (d,), t),
        is_number(c@),
        is_number(d@),
    ensures
        c@ == whole32(1) ==> r@ == diff32(fraction32(54, 100), fraction32(46, 100)),
        c@ == whole32(1).minus() ==> r@ == sum32(fraction32(54, 100), fraction32(46, 100)),
        c@.at_most(d@) ==> t@.at_most(r@),
{
    lemma_window_fades(seq![c@, d@], 0, 1);
}

/// The filter of a frame solves the normal equations of the frame after pre-emphasis and
/// windowing, wherever the recursion on it has few enough digits.
pub proof fn law_run_once<
    const ORDER: usize,
    const WINDOW_LEN: usize,
    const AUTOCORR_LEN: usize,
>(
    pipeline: &mut LpcPipeline<ORDER, WINDOW_LEN, AUTOCORR_LEN>,
    x: &[Single; WINDOW_LEN],
    window: &[Single; WINDOW_LEN],
    r: (&[Single; ORDER], &[Single; ORDER]),
    run: Seq<Recursion>,
    s: nat,
    limit: int,
    i: int,
)
    requires
        call_ensures(
            LpcPipeline::<ORDER, WINDOW_LEN, AUTOCORR_LEN>::run_once,
            (pipeline, x, window),
            r,
        ),
        is_clean_run(
            autocorrelation(shaped(values(x@), values(window@)), ORDER as nat),
            run,
            ORDER as nat,
            s,
            limit,
        ),
        2 * s <= 149,
        pow2(s) <= limit,
        (ORDER + 2) * (limit * limit) < 0x100_0000,
        1 <= i <= ORDER,
    ensures
        left_side(
            autocorrelation(shaped(values(x@), values(window@)), ORDER as nat),
            values(r.0@),
            i,
        ) == 0,
{
    lemma_prediction_solves(
        values(x@),
        values(window@),
        run,
        ORDER as nat,
        s,
        limit,
        i,
    );
}

/// A plot that follows its contents shows every frame of the history and ends right behind
/// the last; one whose bounds were moved shows what lies within them.
pub proof fn law_visible_range(
    follows_contents: bool,
    bounds: (Double, Double),
    history_len: usize,
    r: (Double, Double),
    i: nat,
)
    requires
        call_ensures(visible_range, (follows_contents, bounds, history_len), r),
        history_len < 0x20_0000_0000_0000,
        i < 0x20_0000_0000_0000,
    ensures
        !follows_contents ==> r == bounds,
        follows_contents ==> r.0@.at_most(whole64(i)),
        follows_contents && history_len > 0 ==> (whole64(i).below(r.1@) <==> i < history_len),
        follows_contents ==> r.0@.below(r.1@),
{
    lemma2_to64();
    vstd::arithmetic::power2::lemma2_to64_rest();
    let f = binary64();
    let n = plot_width(history_len as nat);
    lemma_whole_order(f, 0, i);
    lemma_whole_order(f, i, n);
    lemma_whole_order(f, 0, n);
}

/// The lane of a slot of a target is the one of that formant's mean and deviation.
pub proof fn law_band_for_slot(
    target: FormantTarget,
    idx: usize,
    x_range: (Double, Double),
    r: Band,
    mean: nat,
    std: nat,
)
    requires
        call_ensures(band_for_slot, (target, idx, x_range), r),
        idx < 4,
        ({
            let pair = if idx == 0 {
                target.f1
            } else if idx == 1 {
                target.f2
            } else if idx == 2 {
                target.f3
            } else {
                target.f4
            };
            pair.0@ == whole32(mean) && pair.1@ == whole32(std)
        }),
        std < mean,
        mean + std < 0x100_0000,
    ensures
        coordinates(r.polygon@) == seq![
            (x_range.0@, whole64((mean - std) as nat)),
            (x_range.1@, whole64((mean - std) as nat)),
            (x_range.1@, whole64(mean + std)),
            (x_range.0@, whole64(mean + std)),
        ],
        r.mean@ == whole64(mean),
{
    lemma_lane_in_numbers(r, mean, std, x_range.0@, x_range.1@);
}

/// Frames of `N` samples are cut one after the other, as others are.
pub proof fn law_push_and_maybe_analyze_arr<const N: usize>(
    framer: &mut LpcFramer,
    new_samples: &[Single],
    frames: Vec<[Single; N]>,
)
    requires
        call_ensures(LpcFramer::push_and_maybe_analyze_arr::<N>, (framer, new_samples), frames),
        can_cut(
            old(framer).accumulator@.len() + new_samples@.len(),
            N as nat,
            old(framer).hop_size as nat,
        ),
    ensures
        ({
            let all = old(framer).accumulator@ + new_samples@;
            let hop = old(framer).hop_size as int;
            &&& all.len() < N ==> frames@.len() == 0 && final(framer).accumulator@ == all
            &&& all.len() >= N ==> frames@.len() > 0 && frames@[0]@ == all.take(N as int)
            &&& forall|k: int, i: int|
                0 <= k < frames@.len() - 1 && 0 <= i < N - hop
                    ==> #[trigger] frames@[k + 1]@[i] == frames@[k]@[i + hop]
        }),
{
    let all = old(framer).accumulator@ + new_samples@;
    let hop = old(framer).hop_size as nat;
    lemma_frames_one_by_one(all, N as nat, hop);
    crate::framer::lemma_frames_overlap(all, N as nat, hop);
    let cut = crate::framer::frames_of(all, N as nat, hop);
    if all.len() >= N {
        assert(frames@[0]@ == cut[0]);
    }
    assert forall|k: int, i: int|
        0 <= k < frames@.len() - 1 && 0 <= i < N - hop implies #[trigger] frames@[k + 1]@[i]
        == frames@[k]@[i + hop] by {
        assert(frames@[k + 1]@ == cut[k + 1] && frames@[k]@ == cut[k]);
        assert(cut[k + 1][i] == cut[k][i + hop]);
    }
}

/// The name of a formant floats where its last value is, and there is none without one: its
/// height has the value of the formant.
pub proof fn law_label_position(plot: &FormantPlot, idx: usize, r: Option<Position>)
    requires
        call_ensures(FormantPlot::label_position, (plot, idx), r),
        idx < 4,
        is_number(plot@.last_valid[idx as int]),
    ensures
        r is Some <==> is_present(plot@.last_valid[idx as int]),
        r matches Some(p) ==> {
            &&& p.x@ == whole64(295)
            &&& p.y@ is Finite
            &&& units(p.y@, binary64().min_exp()) == units(
                plot@.last_valid[idx as int],
                binary64().min_exp(),
            )
        },
{
    lemma_convert_exact(binary32(), binary64(), plot@.last_valid[idx as int]);
}

/// A choice that is clicked is the one that is selected, and no other is; where nothing is
/// clicked nothing changes.
pub proof fn law_click(
    selection: &mut PhonemeSelection,
    i: usize,
    clicked: bool,
    j: usize,
    offered: Option<Phoneme>,
    r: bool,
)
    requires
        call_ensures(PhonemeSelection::click, (selection, i, clicked), ()),
        call_ensures(choice, (j,), offered),
        call_ensures(PhonemeSelection::is_selected, (final(selection), offered), r),
        i < 7,
        j < 7,
    ensures
        clicked ==> (r <==> i == j),
        !clicked ==> final(selection).active == old(selection).active,
        j == 0 <==> offered is None,
{
    lemma_targets_in_sync(Phoneme::I);
    if i != j && i > 0 && j > 0 {
        assert(Phoneme::ALL@[i - 1] != Phoneme::ALL@[j - 1]);
    }
}

/// The first sample with which there are `chunk_size` completes a chunk, which has all of
/// them in order.
pub proof fn law_push(buffer: &mut ChunkBuffer, sample: Single, r: Option<Vec<Single>>)
    requires
        call_ensures(ChunkBuffer::push, (buffer, sample), r),
        old(buffer).samples@.len() < old(buffer).chunk_size,
    ensures
        r is Some <==> old(buffer).samples@.len() + 1 == old(buffer).chunk_size,
        ({
            let gathered = match r {
                Some(chunk) => chunk@,
                None => final(buffer).samples@,
            };
            &&& gathered.len() == old(buffer).samples@.len() + 1
            &&& gathered.drop_last() == old(buffer).samples@
            &&& gathered.last() == sample
        }),
        final(buffer).samples@.len() < old(buffer).chunk_size,
{
    let gathered = old(buffer).samples@.push(sample);
    assert(gathered.drop_last() =~= old(buffer).samples@);
}

/// Lines between whole ends can be drawn with dashes, however long; one without an end, or
/// without a start, cannot.
pub proof fn law_can_be_dashed(x_range: (Double, Double), r: bool, a: nat, b: nat)
    requires
        call_ensures(can_be_dashed, (x_range,), r),
        a < 0x20_0000_0000_0000,
        b < 0x20_0000_0000_0000,
    ensures
        x_range.0@ == whole64(a) && x_range.1@ == whole64(b) ==> r,
        x_range.0@ == whole64(a) && x_range.1@ == (Num::Infinite { neg: false }) ==> !r,
        x_range.0@ == (Num::Infinite { neg: true }) && x_range.1@ == whole64(b) ==> !r,
{
    lemma2_to64();
    vstd::arithmetic::power2::lemma2_to64_rest();
    lemma_whole_exact(binary64(), a);
    lemma_whole_exact(binary64(), b);
}

} // verus!
