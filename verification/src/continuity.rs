//! What continuity and seeding do to formants, in numbers and from frame to frame.

use crate::correlation::steps;
use crate::equations::one;
use crate::exact::{
    is_number, lemma_apart_against, lemma_dyadic, lemma_order_in_steps, lemma_whole_is_dyadic,
};
use crate::number::{binary32, diff32, whole32, zero32, Num};
use crate::order::lemma_below_is_strict_order;
use crate::plot::{is_frame, lemma_frames_comparable, Track};
use crate::tracking::{
    all_hold, assignment, candidates_of, continued, distance, has_no_farther, in_seed_range,
    is_anchored, is_available, is_close, is_nearest, is_present, is_unclaimed,
    lemma_candidate_position, lemma_candidates, lemma_candidates_hold, lemma_candidates_len,
    lemma_placement_sound, lemma_placement_stable, lemma_present_before_monotone, lemma_seed_slot,
    lemma_seeded_keeps, lemma_steady_voice, no_placement, placement, present_before, seed_slot,
    seeded, Placement,
};
use vstd::arithmetic::power2::lemma_pow2_pos;
use vstd::prelude::*;

verus! {

/// The usual range of a formant in Hz, from the first to before the second.
pub open spec fn usual_range(slot: int) -> (int, int) {
    if slot == 0 {
        (250, 950)
    } else if slot == 1 {
        (950, 2500)
    } else if slot == 2 {
        (2500, 3500)
    } else {
        (3500, 4500)
    }
}

/// Whether a number of Hz lies in the usual range of a formant.
pub open spec fn is_usual(slot: int, v: Num) -> bool {
    usual_range(slot).0 * one() <= steps(v) < usual_range(slot).1 * one()
}

/// Whether two numbers of Hz are no more than 400 apart.
pub open spec fn are_near(a: Num, b: Num) -> bool {
    -400 * one() <= steps(a) - steps(b) <= 400 * one()
}

proof fn lemma_hertz(n: nat)
    requires
        n < 0x100_0000,
    ensures
        is_number(whole32(n)),
        steps(whole32(n)) == n * one(),
        one() > 0,
{
    lemma_whole_is_dyadic(n);
    lemma_dyadic(n, 0);
    lemma_pow2_pos(149);
}

/// A formant is seeded into a slot where it lies in the usual range of that formant: F1 from
/// 250 to 950 Hz, F2 to 2500, F3 to 3500, F4 to 4500.
pub proof fn lemma_ranges_in_numbers(slot: int, v: Num)
    requires
        0 <= slot < 4,
        is_number(v),
    ensures
        in_seed_range(slot, v) <==> is_usual(slot, v),
{
    lemma_hertz(250);
    lemma_hertz(950);
    lemma_hertz(2500);
    lemma_hertz(3500);
    lemma_hertz(4500);
    lemma_order_in_steps(whole32(usual_range(slot).0 as nat), v);
    lemma_order_in_steps(v, whole32(usual_range(slot).1 as nat));
}

/// A formant may continue an earlier one that is no more than 400 Hz away, and none that is
/// farther away than some number of Hz over 400.
pub proof fn lemma_jumps_in_numbers(a: Num, b: Num, over: Num)
    requires
        is_number(a),
        is_number(b),
        is_number(over),
        steps(over) > 400 * one(),
    ensures
        are_near(a, b) ==> is_close(a, b),
        steps(a) - steps(b) >= steps(over) || steps(b) - steps(a) >= steps(over) ==> !is_close(
            a,
            b,
        ),
{
    lemma_hertz(400);
    lemma_apart_against(a, b, whole32(400));
    lemma_apart_against(a, b, over);
    lemma_order_in_steps(whole32(400), over);
    let d = diff32(a, b).magnitude();
    lemma_below_is_strict_order(binary32(), over, d, whole32(400));
    lemma_below_is_strict_order(binary32(), whole32(400), d, over);
}

/// A frame of 32-bit numbers.
pub open spec fn is_number_frame(s: Seq<Num>) -> bool {
    is_frame(s) && all_hold(s)
}

proof fn lemma_anchor(v: Num)
    requires
        is_number(v),
    ensures
        is_anchored(v) <==> steps(v) > 0,
        is_present(v) <==> steps(v) > 0,
{
    lemma_hertz(0);
    assert(whole32(0) == zero32());
    lemma_order_in_steps(v, zero32());
    lemma_order_in_steps(zero32(), v);
}

/// Whether a formant `v` and a slot are content in a frame `out` that follows `last`: the
/// slot has a formant that is no farther from its last one than `v` is, or `v` is in a slot
/// whose last formant is no farther from it.
pub open spec fn are_content(last: Seq<Num>, out: Seq<Num>, slot: int, v: Num) -> bool {
    ||| is_present(out[slot]) && !distance(v, last[slot]).below(distance(out[slot], last[slot]))
    ||| exists|s: int|
        {
            &&& 0 <= s < 4
            &&& #[trigger] out[s] == v
            &&& is_present(last[s])
            &&& !distance(v, last[slot]).below(distance(v, last[s]))
        }
}

/// Each formant that is near the last one of a slot goes to that slot, unless a nearer pair
/// claims one of them.
#[verifier::rlimit(40)]
pub proof fn lemma_assignment_continues(raw: Seq<Num>, last: Seq<Num>, slot: int, i: int)
    requires
        is_number_frame(raw),
        is_number_frame(last),
        0 <= slot < 4,
        0 <= i < 4,
        is_present(raw[i]),
        is_present(last[slot]),
        are_near(raw[i], last[slot]),
    ensures
        are_content(last, assignment(raw, last), slot, raw[i]),
{
    let v = raw[i];
    let candidates = candidates_of(raw);
    let ci = present_before(raw, i as nat);
    lemma_candidate_position(raw, i);
    lemma_hertz(401);
    lemma_hertz(400);
    assert(binary32().holds(raw[i]) && binary32().holds(last[slot]));
    lemma_jumps_in_numbers(v, last[slot], whole32(401));
    lemma_anchor(last[slot]);
    lemma_frames_comparable(raw, last);
    lemma_placement_stable(raw, last, slot, ci);
    lemma_placement_sound(raw, last);
    lemma_candidates(raw);
    let p = placement(raw, last);
    let out = assignment(raw, last);
    if has_no_farther(p, candidates, last, slot, ci) {
        assert(p[slot] is Some);
    } else {
        let s = choose|s: int|
            {
                &&& 0 <= s < 4
                &&& #[trigger] p[s] == Some(ci)
                &&& is_anchored(last[s])
                &&& !distance(candidates[ci], last[slot]).below(
                    distance(candidates[ci], last[s]),
                )
            };
        assert(binary32().holds(last[s]));
        lemma_anchor(last[s]);
        assert(out[s] == v);
    }
}

/// Whether a formant is nearer to the last one of a slot than to that of any other slot.
pub open spec fn is_nearest_to(last: Seq<Num>, slot: int, v: Num) -> bool {
    forall|s: int|
        0 <= s < 4 && s != slot && is_present(#[trigger] last[s]) ==> distance(
            v,
            last[slot],
        ).below(distance(v, last[s]))
}

/// A voice goes on. A frame in which some formant is no more than 400 Hz from the last F1,
/// and nearer to it than to the last of any other, counts: it is put at the end of the
/// history, with an F1 that is no farther from the last one than that formant. And every
/// formant of it that is near the last one of some slot goes to that slot, unless a nearer
/// pair claims one of them.
#[verifier::rlimit(40)]
pub proof fn lemma_voice_goes_on(
    t: Track,
    threshold: nat,
    raw: Seq<Num>,
    first: int,
    slot: int,
    i: int,
)
    requires
        is_number_frame(raw),
        is_number_frame(t.last_valid),
        0 <= first < 4,
        is_present(raw[first]),
        is_present(t.last_valid[0]),
        are_near(raw[first], t.last_valid[0]),
        is_nearest_to(t.last_valid, 0, raw[first]),
        0 <= slot < 4,
        0 <= i < 4,
        is_present(raw[i]),
        is_present(t.last_valid[slot]),
        are_near(raw[i], t.last_valid[slot]),
    ensures
        ({
            let n = t.record(threshold, raw);
            &&& n.history.len() > 0
            &&& n.history.last() == n.last_valid
            &&& is_present(n.last_valid[0])
            &&& !distance(raw[first], t.last_valid[0]).below(
                distance(n.last_valid[0], t.last_valid[0]),
            )
            &&& are_content(t.last_valid, n.last_valid, slot, raw[i])
        }),
{
    let last = t.last_valid;
    let out = assignment(raw, last);
    lemma_assignment_continues(raw, last, 0, first);
    lemma_assignment_continues(raw, last, slot, i);
    let v = raw[first];
    if !(is_present(out[0]) && !distance(v, last[0]).below(distance(out[0], last[0]))) {
        let s = choose|s: int|
            {
                &&& 0 <= s < 4
                &&& #[trigger] out[s] == v
                &&& is_present(last[s])
                &&& !distance(v, last[0]).below(distance(v, last[s]))
            };
        lemma_same_distance(raw, last, first);
        assert(s == 0);
    }
}

/// A distance is not below itself.
proof fn lemma_same_distance(raw: Seq<Num>, last: Seq<Num>, i: int)
    requires
        is_number_frame(raw),
        is_number_frame(last),
        0 <= i < 4,
    ensures
        !distance(raw[i], last[0]).below(distance(raw[i], last[0])),
{
    assert(binary32().holds(raw[i]) && binary32().holds(last[0]));
    lemma_hertz(0);
    assert(0 * one() == 0);
    lemma_apart_against(raw[i], last[0], whole32(0));
    let d = distance(raw[i], last[0]);
    lemma_below_is_strict_order(binary32(), d, d, d);
}

/// A voice that does not change is recorded as it is, whatever ranges its formants lie in:
/// a frame equal to the last one is put at the end of the history once more.
pub proof fn lemma_same_frame_again(t: Track, threshold: nat)
    requires
        is_number_frame(t.last_valid),
        is_present(t.last_valid[0]),
        forall|i: int|
            0 <= i < 4 ==> is_present(#[trigger] t.last_valid[i]) || t.last_valid[i] == zero32(),
    ensures
        ({
            let n = t.record(threshold, t.last_valid);
            &&& n.last_valid == t.last_valid
            &&& n.history.len() > 0
            &&& n.history.last() == t.last_valid
            &&& t.history.len() < threshold ==> n.history == t.history.push(t.last_valid)
        }),
{
    let v = t.last_valid;
    lemma_steady_voice(v);
    assert forall|i: int| 0 <= i < 4 implies #[trigger] assignment(v, v)[i] == v[i] by {
        assert(is_present(v[i]) || v[i] == zero32());
    }
    assert(assignment(v, v) =~= v);
}

/// What a frame does to a track. It changes nothing; or it is put at the end of the history,
/// from which only the oldest leaves where it was full, with an F1, and each of its formants
/// is one of the raw ones that is near the last one of its slot or in the usual range.
pub proof fn lemma_frame_recorded(t: Track, threshold: nat, raw: Seq<Num>, slot: int)
    requires
        is_number_frame(raw),
        is_number_frame(t.last_valid),
        0 <= slot < 4,
    ensures
        ({
            let n = t.record(threshold, raw);
            n == t || {
                &&& n.history.len() > 0
                &&& n.history.last() == n.last_valid
                &&& n.last_valid.len() == 4
                &&& is_present(n.last_valid[0])
                &&& t.history.len() < threshold ==> n.history.drop_last() == t.history
                &&& t.history.len() >= threshold && t.history.len() > 0
                    ==> n.history.drop_last() == t.history.skip(1)
                &&& n.last_valid[slot] == zero32() || {
                    &&& raw.contains(n.last_valid[slot])
                    &&& is_present(n.last_valid[slot])
                    &&& is_usual(slot, n.last_valid[slot]) || (is_present(t.last_valid[slot])
                        && !whole32(400).below(
                        distance(n.last_valid[slot], t.last_valid[slot]),
                    ))
                }
            }
        }),
{
    lemma_counted_frame(t, threshold, raw, slot);
    if is_present(t.slots(raw)[0]) {
        lemma_assigned_present(raw, t.last_valid, slot);
    }
}

/// What is in a slot is a formant, or zero.
proof fn lemma_assigned_present(raw: Seq<Num>, last: Seq<Num>, slot: int)
    requires
        0 <= slot < 4,
    ensures
        assignment(raw, last).len() == 4,
        assignment(raw, last)[slot] == zero32() || is_present(assignment(raw, last)[slot]),
{
    lemma_placement_sound(raw, last);
    lemma_candidates(raw);
}

/// While the history has room for all of some frames, it grows by one for each that counts.
pub proof fn lemma_count_is_growth(t: Track, threshold: nat, frames: Seq<Seq<Num>>)
    requires
        t.history.len() + frames.len() <= threshold,
    ensures
        t.record_all(threshold, frames).history.len() == t.history.len() + t.count_valid(
            threshold,
            frames,
        ),
        t.count_valid(threshold, frames) <= frames.len(),
    decreases frames.len(),
{
    if frames.len() > 0 {
        lemma_count_is_growth(t, threshold, frames.drop_last());
    }
}

/// No more frames count than there are.
pub proof fn lemma_count_at_most(t: Track, threshold: nat, frames: Seq<Seq<Num>>)
    ensures
        t.count_valid(threshold, frames) <= frames.len(),
    decreases frames.len(),
{
    if frames.len() > 0 {
        lemma_count_at_most(t, threshold, frames.drop_last());
    }
}

/// A candidate lies in the usual range of one slot at most.
proof fn lemma_one_range(v: Num, s: int, r: int)
    requires
        is_number(v),
        0 <= s < 4,
        0 <= r < 4,
        in_seed_range(s, v),
        in_seed_range(r, v),
    ensures
        s == r,
{
    lemma_ranges_in_numbers(s, v);
    lemma_ranges_in_numbers(r, v);
    lemma_hertz(0);
}

/// Whether no candidate before `end` lies in the usual range of a slot.
spec fn none_before(candidates: Seq<Num>, slot: int, end: int) -> bool {
    forall|c: int| 0 <= c < end ==> !in_seed_range(slot, #[trigger] candidates[c])
}

/// Whether a slot has taken the first candidate before `end` in its usual range.
spec fn has_first(p: Placement, candidates: Seq<Num>, slot: int, end: int) -> bool {
    match p[slot] {
        Some(ci) => {
            &&& 0 <= ci < end
            &&& in_seed_range(slot, candidates[ci])
            &&& none_before(candidates, slot, ci)
        },
        None => none_before(candidates, slot, end),
    }
}

#[verifier::rlimit(40)]
proof fn lemma_seeding_takes_first(candidates: Seq<Num>, end: nat)
    requires
        end <= candidates.len(),
        forall|c: int| 0 <= c < candidates.len() ==> is_number(#[trigger] candidates[c]),
    ensures
        seeded(no_placement(), candidates, end).len() == 4,
        forall|slot: int|
            0 <= slot < 4 ==> #[trigger] has_first(
                seeded(no_placement(), candidates, end),
                candidates,
                slot,
                end as int,
            ),
    decreases end,
{
    let after = seeded(no_placement(), candidates, end);
    lemma_seeded_keeps(no_placement(), candidates, end);
    if end > 0 {
        let ci = end - 1;
        lemma_seeding_takes_first(candidates, ci as nat);
        let before = seeded(no_placement(), candidates, ci as nat);
        let v = candidates[ci];
        lemma_seed_slot(before, v, 0);
        assert(is_unclaimed(before, ci)) by {
            if before.contains(Some(ci)) {
                let s = choose|s: int| 0 <= s < before.len() && before[s] == Some(ci);
                assert(has_first(before, candidates, s, ci));
            }
        }
        assert forall|slot: int| 0 <= slot < 4 implies #[trigger] has_first(
            after,
            candidates,
            slot,
            end as int,
        ) by {
            assert(has_first(before, candidates, slot, ci));
            if in_seed_range(slot, v) {
                if before[slot] is None {
                    let s = seed_slot(before, v, 0)->0;
                    assert(seed_slot(before, v, 0) is Some);
                    lemma_one_range(v, slot, s);
                }
            }
        }
    } else {
        assert forall|slot: int| 0 <= slot < 4 implies #[trigger] has_first(
            after,
            candidates,
            slot,
            0,
        ) by {
            assert(after[slot] is None);
        }
    }
}

/// A candidate is the raw formant with as many formants before it.
proof fn lemma_candidate_of(raw: Seq<Num>, ci: int) -> (k: int)
    requires
        0 <= ci < candidates_of(raw).len(),
    ensures
        0 <= k < raw.len(),
        is_present(raw[k]),
        present_before(raw, k as nat) == ci,
        candidates_of(raw)[ci] == raw[k],
{
    lemma_candidates_len(raw);
    let k = lemma_position_of(raw, raw.len(), ci);
    lemma_candidate_position(raw, k);
    k
}

proof fn lemma_position_of(raw: Seq<Num>, end: nat, ci: int) -> (k: int)
    requires
        end <= raw.len(),
        0 <= ci < present_before(raw, end),
    ensures
        0 <= k < end,
        is_present(raw[k]),
        present_before(raw, k as nat) == ci,
    decreases end,
{
    let last = (end - 1) as nat;
    if ci < present_before(raw, last) {
        lemma_position_of(raw, last, ci)
    } else {
        last as int
    }
}

/// After a silence each slot takes the first raw formant in its usual range, and stays empty
/// where there is none.
#[verifier::rlimit(40)]
pub proof fn lemma_fresh_start(raw: Seq<Num>, last: Seq<Num>, slot: int, i: int)
    requires
        is_number_frame(raw),
        last.len() == 4,
        forall|s: int| 0 <= s < 4 ==> !is_present(#[trigger] last[s]) && is_number(last[s]),
        0 <= slot < 4,
        0 <= i <= 4,
        forall|k: int| 0 <= k < i ==> !is_usual(slot, #[trigger] raw[k]),
    ensures
        i == 4 ==> assignment(raw, last)[slot] == zero32(),
        i < 4 && is_usual(slot, raw[i]) ==> assignment(raw, last)[slot] == raw[i],
{
    let candidates = candidates_of(raw);
    lemma_candidates(raw);
    lemma_candidates_hold(raw);
    assert forall|c: int| 0 <= c < candidates.len() implies is_number(#[trigger] candidates[c]) by {
        let k = choose|k: int| 0 <= k < raw.len() && raw[k] == candidates[c];
        assert(raw[k] is Finite && binary32().holds(candidates[c]));
    }
    assert forall|s: int, c: int| !#[trigger] is_nearest(
        no_placement(),
        candidates,
        last,
        s,
        c,
    ) by {
        if is_available(no_placement(), candidates, last, s, c) {
            lemma_anchor(last[s]);
            assert(!is_present(last[s]));
        }
    }
    assert(continued(no_placement(), candidates, last, 4) == no_placement());
    lemma_seeding_takes_first(candidates, candidates.len());
    let p = placement(raw, last);
    assert(has_first(p, candidates, slot, candidates.len() as int));
    if let Some(ci) = p[slot] {
        let k = lemma_candidate_of(raw, ci);
        lemma_ranges_in_numbers(slot, raw[k]);
        assert(is_usual(slot, raw[k]));
        if i < 4 && is_usual(slot, raw[i]) && k != i {
            lemma_usual_is_candidate(raw, slot, i);
            let c = present_before(raw, i as nat);
            lemma_present_before_monotone(raw, i as nat, k as nat);
            assert(in_seed_range(slot, candidates[c]));
        }
    } else if i < 4 && is_usual(slot, raw[i]) {
        lemma_usual_is_candidate(raw, slot, i);
        assert(in_seed_range(slot, candidates[present_before(raw, i as nat)]));
    }
}

/// A raw value in a usual range is a candidate.
proof fn lemma_usual_is_candidate(raw: Seq<Num>, slot: int, i: int)
    requires
        is_number_frame(raw),
        0 <= slot < 4,
        0 <= i < 4,
        is_usual(slot, raw[i]),
    ensures
        is_present(raw[i]),
        0 <= present_before(raw, i as nat) < candidates_of(raw).len(),
        candidates_of(raw)[present_before(raw, i as nat)] == raw[i],
        in_seed_range(slot, raw[i]),
{
    assert(binary32().holds(raw[i]));
    lemma_ranges_in_numbers(slot, raw[i]);
    lemma_hertz(0);
    lemma_anchor(raw[i]);
    lemma_candidate_position(raw, i);
}

/// Such a frame has an F1 in its slots.
pub(crate) proof fn lemma_first_slot_counts(t: Track, raw: Seq<Num>, first: int)
    requires
        is_number_frame(raw),
        is_number_frame(t.last_valid),
        0 <= first < 4,
        is_present(raw[first]),
        is_present(t.last_valid[0]),
        are_near(raw[first], t.last_valid[0]),
        is_nearest_to(t.last_valid, 0, raw[first]),
    ensures
        is_present(t.slots(raw)[0]),
{
    let last = t.last_valid;
    let out = assignment(raw, last);
    lemma_assignment_continues(raw, last, 0, first);
    let v = raw[first];
    if !(is_present(out[0]) && !distance(v, last[0]).below(distance(out[0], last[0]))) {
        let s = choose|s: int|
            {
                &&& 0 <= s < 4
                &&& #[trigger] out[s] == v
                &&& is_present(last[s])
                &&& !distance(v, last[0]).below(distance(v, last[s]))
            };
        assert(s == 0);
    }
}

/// A frame that is the last one again has an F1 in its slots.
pub(crate) proof fn lemma_same_frame_counts(t: Track)
    requires
        is_number_frame(t.last_valid),
        is_present(t.last_valid[0]),
    ensures
        is_present(t.slots(t.last_valid)[0]),
{
    lemma_steady_voice(t.last_valid);
    assert(assignment(t.last_valid, t.last_valid)[0] == t.last_valid[0]);
}

/// What a frame does to a track, by whether it has an F1 in its slots.
#[verifier::rlimit(40)]
pub(crate) proof fn lemma_counted_frame(t: Track, threshold: nat, raw: Seq<Num>, slot: int)
    requires
        is_number_frame(raw),
        is_number_frame(t.last_valid),
        0 <= slot < 4,
    ensures
        ({
            let n = t.record(threshold, raw);
            &&& !is_present(t.slots(raw)[0]) ==> n == t
            &&& is_present(t.slots(raw)[0]) ==> {
                &&& n.history.len() > 0
                &&& n.history.last() == n.last_valid
                &&& is_present(n.last_valid[0])
                &&& t.history.len() < threshold ==> n.history.drop_last() == t.history
                &&& t.history.len() >= threshold && t.history.len() > 0
                    ==> n.history.drop_last() == t.history.skip(1)
                &&& n.last_valid[slot] == zero32() || {
                    &&& raw.contains(n.last_valid[slot])
                    &&& is_usual(slot, n.last_valid[slot]) || (is_present(t.last_valid[slot])
                        && !whole32(400).below(
                        distance(n.last_valid[slot], t.last_valid[slot]),
                    ))
                }
            }
        }),
{
    let last = t.last_valid;
    let n = t.record(threshold, raw);
    let candidates = candidates_of(raw);
    lemma_placement_sound(raw, last);
    lemma_candidates(raw);
    let p = placement(raw, last);
    assert(binary32().holds(last[slot]));
    lemma_anchor(last[slot]);
    if let Some(ci) = p[slot] {
        let v = candidates[ci];
        let k = choose|k: int| 0 <= k < raw.len() && raw[k] == v;
        assert(binary32().holds(raw[k]));
        lemma_ranges_in_numbers(slot, v);
    }
    if is_present(t.slots(raw)[0]) {
        let kept = if t.history.len() >= threshold && t.history.len() > 0 {
            t.history.skip(1)
        } else {
            t.history
        };
        assert(n.history.drop_last() =~= kept);
    }
}

} // verus!
