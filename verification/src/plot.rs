//! The formants over time, as far as they are shown.

use crate::channel::{each_taken, lemma_one_more_taken, receive, received};
use crate::float::{values, Double, Single};
use crate::number::{whole64, widen, zero32, Num};
use crate::tracking::{
    are_comparable, assign_formants, assignment, candidates_of, distance, is_present,
    lemma_candidates, lemma_placement_sound, placement,
};
use crossbeam::channel::Receiver;
use std::collections::VecDeque;
use vstd::prelude::*;

verus! {

/// The formants F1 to F4 of one frame in Hz, zero where there is none. All are finite.
#[derive(Clone, Copy)]
pub struct FormantFrame {
    hz: [Single; 4],
}

impl View for FormantFrame {
    type V = Seq<Num>;

    closed spec fn view(&self) -> Seq<Num> {
        values(self.hz@)
    }
}

/// Whether four values can be a frame.
pub open spec fn is_frame(s: Seq<Num>) -> bool {
    s.len() == 4 && forall|i: int| 0 <= i < 4 ==> #[trigger] s[i] is Finite
}

impl FormantFrame {
    #[verifier::type_invariant]
    spec fn well_formed(self) -> bool {
        is_frame(self@)
    }

    /// The frame without formants.
    pub fn empty() -> (r: Self)
        ensures
            r@ == seq![zero32(), zero32(), zero32(), zero32()],
    {
        let zero: Single = Single::zero();
        let hz: [Single; 4] = [zero, zero, zero, zero];
        assert(values(hz@) =~= seq![zero32(), zero32(), zero32(), zero32()]);
        FormantFrame { hz }
    }

    /// The frame with the given formants, if all are finite.
    pub fn new(hz: [Single; 4]) -> (r: Option<Self>)
        ensures
            match r {
                Some(frame) => is_frame(values(hz@)) && frame@ == values(hz@),
                None => !is_frame(values(hz@)),
            },
    {
        let ghost v = values(hz@);
        assert(v[0] == hz@[0]@ && v[1] == hz@[1]@ && v[2] == hz@[2]@ && v[3] == hz@[3]@);
        if hz[0].is_finite() && hz[1].is_finite() && hz[2].is_finite() && hz[3].is_finite() {
            Some(FormantFrame { hz })
        } else {
            None
        }
    }

    /// Formant `i`, counted from 0.
    pub fn get(&self, i: usize) -> (r: Single)
        requires
            i < 4,
        ensures
            r@ == self@[i as int],
            is_frame(self@),
    {
        proof {
            use_type_invariant(self);
        }
        self.hz[i]
    }
}

/// The formants that are shown, oldest first, and the last ones that counted.
pub struct Track {
    pub history: Seq<Seq<Num>>,
    pub last_valid: Seq<Num>,
}

impl Track {
    /// The formants of a raw frame in their slots.
    pub open spec fn slots(self, raw: Seq<Num>) -> Seq<Num> {
        assignment(raw, self.last_valid)
    }

    /// The track after a raw frame. One without F1 is ignored; another is put at the end,
    /// and where the history is full its oldest frame leaves.
    pub open spec fn record(self, threshold: nat, raw: Seq<Num>) -> Track {
        let formants = self.slots(raw);
        if is_present(formants[0]) {
            let kept = if self.history.len() >= threshold && self.history.len() > 0 {
                self.history.skip(1)
            } else {
                self.history
            };
            Track { history: kept.push(formants), last_valid: formants }
        } else {
            self
        }
    }

    /// The track after some raw frames.
    pub open spec fn record_all(self, threshold: nat, frames: Seq<Seq<Num>>) -> Track
        decreases frames.len(),
    {
        if frames.len() == 0 {
            self
        } else {
            self.record_all(threshold, frames.drop_last()).record(threshold, frames.last())
        }
    }

    /// How many of some raw frames are not ignored.
    pub open spec fn count_valid(self, threshold: nat, frames: Seq<Seq<Num>>) -> nat
        decreases frames.len(),
    {
        if frames.len() == 0 {
            0
        } else {
            let before = self.record_all(threshold, frames.drop_last());
            self.count_valid(threshold, frames.drop_last()) + if is_present(
                before.slots(frames.last())[0],
            ) {
                1nat
            } else {
                0nat
            }
        }
    }
}

/// The frames of a sequence as values.
pub open spec fn frame_values(s: Seq<FormantFrame>) -> Seq<Seq<Num>> {
    s.map_values(|f: FormantFrame| f@)
}

/// Distances between the formants of frames are numbers.
pub(crate) proof fn lemma_frames_comparable(raw: Seq<Num>, confirmed: Seq<Num>)
    requires
        is_frame(raw),
        is_frame(confirmed),
    ensures
        are_comparable(candidates_of(raw), confirmed),
{
    let candidates = candidates_of(raw);
    lemma_candidates(raw);
    assert forall|s: int, c: int| 0 <= s < 4 && 0 <= c < candidates.len() implies distance(
        #[trigger] candidates[c],
        #[trigger] confirmed[s],
    ) !is Nan by {
        let k = choose|k: int| 0 <= k < raw.len() && raw[k] == candidates[c];
        assert(raw[k] is Finite);
    }
}

/// The formants of a frame in their slots are a frame again.
pub proof fn lemma_assignment_is_frame(raw: Seq<Num>, confirmed: Seq<Num>)
    requires
        is_frame(raw),
    ensures
        is_frame(assignment(raw, confirmed)),
{
    let candidates = candidates_of(raw);
    lemma_candidates(raw);
    lemma_placement_sound(raw, confirmed);
    let p = placement(raw, confirmed);
    let out = assignment(raw, confirmed);
    assert forall|i: int| 0 <= i < 4 implies #[trigger] out[i] is Finite by {
        if let Some(ci) = p[i] {
            let k = choose|k: int| 0 <= k < raw.len() && raw[k] == candidates[ci];
            assert(raw[k] is Finite);
        }
    }
}

/// The formants over time: what arrives on the channel, in slots, up to a limit.
pub struct FormantPlot {
    pub rx: Receiver<FormantFrame>,
    pub history: VecDeque<FormantFrame>,
    pub history_threshold: usize,
    pub last_valid: FormantFrame,
}

impl View for FormantPlot {
    type V = Track;

    open spec fn view(&self) -> Track {
        Track { history: frame_values(self.history@), last_valid: self.last_valid@ }
    }
}

impl FormantPlot {
    /// A plot of what arrives on a channel, with at most `history_size` frames.
    pub fn new(rx: Receiver<FormantFrame>, history_size: usize) -> (r: Self)
        ensures
            r.rx == rx,
            r.history_threshold == history_size,
            r@.history == Seq::<Seq<Num>>::empty(),
            r@.last_valid == seq![zero32(), zero32(), zero32(), zero32()],
    {
        let r = FormantPlot {
            rx,
            history: VecDeque::with_capacity(history_size),
            history_threshold: history_size,
            last_valid: FormantFrame::empty(),
        };
        assert(r@.history =~= Seq::<Seq<Num>>::empty());
        r
    }

    /// Takes in one raw frame, and says whether it counted.
    pub fn record(&mut self, raw: FormantFrame) -> (r: bool)
        ensures
            final(self)@ == old(self)@.record(old(self).history_threshold as nat, raw@),
            r == is_present(old(self)@.slots(raw@)[0]),
            final(self).rx == old(self).rx,
            final(self).history_threshold == old(self).history_threshold,
    {
        let last: FormantFrame = self.last_valid;
        proof {
            use_type_invariant(&raw);
            use_type_invariant(&last);
            lemma_frames_comparable(raw@, last@);
            lemma_assignment_is_frame(raw@, last@);
        }
        let hz: [Single; 4] = assign_formants(&raw.hz, &last.hz);
        let ghost formants = assignment(raw@, last@);
        assert(values(hz@)[0] == hz@[0]@);
        if Single::zero().lt(hz[0]) {
            let frame = FormantFrame { hz };
            self.last_valid = frame;
            if self.history.len() >= self.history_threshold {
                let _ = self.history.pop_front();
            }
            self.history.push_back(frame);
            assert(self@.history =~= old(self)@.record(
                old(self).history_threshold as nat,
                raw@,
            ).history);
            true
        } else {
            false
        }
    }

    /// Takes in one frame from the channel after the other until nothing comes out, and
    /// returns how many counted. A sender that never pauses is left after `u64::MAX` frames.
    pub fn update(&mut self) -> (r: u64)
        ensures
            exists|frames: Seq<FormantFrame>|
                {
                    let threshold = old(self).history_threshold as nat;
                    let attempts = received(old(self).rx) + each_taken(
                        #[trigger] frame_values(frames),
                    );
                    &&& frames.len() <= u64::MAX
                    &&& received(final(self).rx) == if frames.len() < u64::MAX {
                        attempts.push(None)
                    } else {
                        attempts
                    }
                    &&& final(self)@ == old(self)@.record_all(threshold, frame_values(frames))
                    &&& r == old(self)@.count_valid(threshold, frame_values(frames))
                },
            final(self).history_threshold == old(self).history_threshold,
    {
        let ghost threshold = self.history_threshold as nat;
        let ghost mut frames: Seq<FormantFrame> = Seq::empty();
        let mut valid: u64 = 0;
        let mut left: u64 = u64::MAX;
        assert(received(self.rx) =~= received(self.rx) + each_taken(frame_values(frames)));
        while left > 0
            invariant
                threshold == old(self).history_threshold as nat,
                received(self.rx) == received(old(self).rx) + each_taken(frame_values(frames)),
                frames.len() + left == u64::MAX,
                self.history_threshold == old(self).history_threshold,
                valid <= u64::MAX - left,
                self@ == old(self)@.record_all(threshold, frame_values(frames)),
                valid == old(self)@.count_valid(threshold, frame_values(frames)),
            decreases left,
        {
            match receive(&mut self.rx) {
                Some(raw) => {
                    let ghost longer = frames.push(raw);
                    proof {
                        assert(frame_values(longer).drop_last() =~= frame_values(frames));
                        assert(frame_values(longer).last() == raw@);
                        lemma_one_more_taken(frame_values(frames), raw@);
                        assert(frame_values(longer) =~= frame_values(frames).push(raw@));
                        assert(received(old(self).rx) + each_taken(frame_values(longer))
                            =~= (received(old(self).rx) + each_taken(frame_values(frames))).push(
                            Some(raw@),
                        ));
                    }
                    if self.record(raw) {
                        valid = valid + 1;
                    }
                    proof {
                        frames = longer;
                    }
                    left = left - 1;
                },
                None => {
                    return valid;
                },
            }
        }
        valid
    }
}

/// Whether a track shows what it should: at most `threshold` frames, or one where that is
/// zero, each with an F1, and the last one that counted at the end.
pub open spec fn is_consistent(t: Track, threshold: nat) -> bool {
    &&& t.history.len() <= threshold || t.history.len() <= 1
    &&& forall|i: int| 0 <= i < t.history.len() ==> is_present((#[trigger] t.history[i])[0])
    &&& t.history.len() > 0 ==> t.history.last() == t.last_valid
}

/// A track shows what it should before the first frame, and after every one.
pub proof fn lemma_track_consistent(t: Track, threshold: nat, raw: Seq<Num>)
    ensures
        t.history.len() == 0 ==> is_consistent(t, threshold),
        is_consistent(t, threshold) ==> is_consistent(t.record(threshold, raw), threshold),
{
}

/// A track shows what it should after any frames.
pub proof fn lemma_track_stays_consistent(t: Track, threshold: nat, frames: Seq<Seq<Num>>)
    requires
        is_consistent(t, threshold),
    ensures
        is_consistent(t.record_all(threshold, frames), threshold),
    decreases frames.len(),
{
    if frames.len() > 0 {
        lemma_track_stays_consistent(t, threshold, frames.drop_last());
    }
}

/// It does not matter how frames are divided among updates.
pub proof fn lemma_record_in_parts(
    t: Track,
    threshold: nat,
    first: Seq<Seq<Num>>,
    then: Seq<Seq<Num>>,
)
    ensures
        t.record_all(threshold, first + then) == t.record_all(threshold, first).record_all(
            threshold,
            then,
        ),
        t.count_valid(threshold, first + then) == t.count_valid(threshold, first)
            + t.record_all(threshold, first).count_valid(threshold, then),
    decreases then.len(),
{
    let all = first + then;
    if then.len() == 0 {
        assert(all =~= first);
    } else {
        assert(all.drop_last() =~= first + then.drop_last());
        assert(all.last() == then.last());
        lemma_record_in_parts(t, threshold, first, then.drop_last());
    }
}

impl Track {
    /// The formants, in their slots, of those of some raw frames that are not ignored.
    pub open spec fn valid_frames(self, threshold: nat, frames: Seq<Seq<Num>>) -> Seq<Seq<Num>>
        decreases frames.len(),
    {
        if frames.len() == 0 {
            Seq::empty()
        } else {
            let formants = self.record_all(threshold, frames.drop_last()).slots(frames.last());
            let before = self.valid_frames(threshold, frames.drop_last());
            if is_present(formants[0]) {
                before.push(formants)
            } else {
                before
            }
        }
    }
}

/// The last `n` of a sequence, or all where there are fewer.
pub open spec fn last_of(s: Seq<Seq<Num>>, n: nat) -> Seq<Seq<Num>> {
    if s.len() <= n {
        s
    } else {
        s.skip(s.len() - n)
    }
}

/// The history is what came last: of what it held and what counted since, as many as it
/// may hold, none left out in between.
pub proof fn lemma_history_is_recent(t: Track, threshold: nat, frames: Seq<Seq<Num>>)
    requires
        threshold > 0,
        t.history.len() <= threshold,
    ensures
        t.record_all(threshold, frames).history == last_of(
            t.history + t.valid_frames(threshold, frames),
            threshold,
        ),
        t.valid_frames(threshold, frames).len() == t.count_valid(threshold, frames),
    decreases frames.len(),
{
    let valid = t.valid_frames(threshold, frames);
    if frames.len() == 0 {
        assert(t.history + valid =~= t.history);
    } else {
        let front = frames.drop_last();
        lemma_history_is_recent(t, threshold, front);
        let before = t.record_all(threshold, front);
        let formants = before.slots(frames.last());
        let earlier = t.history + t.valid_frames(threshold, front);
        if is_present(formants[0]) {
            assert(t.history + valid =~= earlier.push(formants));
            assert(t.record_all(threshold, frames).history =~= last_of(
                earlier.push(formants),
                threshold,
            ));
        }
    }
}

/// A silent frame, one without any formant, changes nothing.
pub proof fn lemma_silent_frame_is_ignored(t: Track, threshold: nat, raw: Seq<Num>)
    requires
        forall|i: int| 0 <= i < raw.len() ==> !is_present(#[trigger] raw[i]),
    ensures
        t.record(threshold, raw) == t,
{
    lemma_candidates(raw);
    lemma_placement_sound(raw, t.last_valid);
    let p = placement(raw, t.last_valid);
    assert(candidates_of(raw).len() == 0) by {
        if candidates_of(raw).len() > 0 {
            let k = choose|k: int| 0 <= k < raw.len() && raw[k] == candidates_of(raw)[0];
            assert(!is_present(raw[k]));
        }
    }
    assert(p[0] is None);
}

/// A place in a plot.
#[derive(Clone, Copy)]
pub struct Position {
    pub x: Double,
    pub y: Double,
}

impl View for Position {
    type V = (Num, Num);

    open spec fn view(&self) -> (Num, Num) {
        (self.x@, self.y@)
    }
}

/// The coordinates of some places.
pub open spec fn coordinates(s: Seq<Position>) -> Seq<(Num, Num)> {
    s.map_values(|p: Position| p@)
}

/// The points of formant `idx` in a history: where there is one, its value over the number
/// of the frame.
pub open spec fn points_of(history: Seq<Seq<Num>>, idx: int) -> Seq<(Num, Num)>
    decreases history.len(),
{
    if history.len() == 0 {
        Seq::empty()
    } else {
        let before = points_of(history.drop_last(), idx);
        let v = history.last()[idx];
        if is_present(v) {
            before.push((whole64((history.len() - 1) as nat), widen(v)))
        } else {
            before
        }
    }
}

/// Each frame with the formant has a point, at the number of the frame and the height of
/// the formant.
pub proof fn lemma_formant_has_point(history: Seq<Seq<Num>>, idx: int, i: int)
    requires
        0 <= i < history.len(),
        is_present(history[i][idx]),
    ensures
        points_of(history, idx).contains((whole64(i as nat), widen(history[i][idx]))),
    decreases history.len(),
{
    let front = history.drop_last();
    let point = (whole64(i as nat), widen(history[i][idx]));
    let all = points_of(history, idx);
    if i < front.len() {
        lemma_formant_has_point(front, idx, i);
        let before = points_of(front, idx);
        let k = choose|k: int| 0 <= k < before.len() && before[k] == point;
        assert(all[k] == point);
    } else {
        assert(all[all.len() - 1] == point);
    }
}

/// Each point is that of a frame with the formant, and the points come in the order of the
/// frames: point `k` is that of a frame before which just `k` have the formant.
pub proof fn lemma_point_has_formant(history: Seq<Seq<Num>>, idx: int, k: int)
    requires
        0 <= k < points_of(history, idx).len(),
    ensures
        exists|i: int|
            {
                &&& 0 <= i < history.len()
                &&& is_present((#[trigger] history[i])[idx])
                &&& points_of(history, idx)[k] == (whole64(i as nat), widen(history[i][idx]))
                &&& points_of(history.take(i), idx).len() == k
            },
    decreases history.len(),
{
    let front = history.drop_last();
    let before = points_of(front, idx);
    if k < before.len() {
        lemma_point_has_formant(front, idx, k);
        let i = choose|i: int|
            {
                &&& 0 <= i < front.len()
                &&& is_present((#[trigger] front[i])[idx])
                &&& before[k] == (whole64(i as nat), widen(front[i][idx]))
                &&& points_of(front.take(i), idx).len() == k
            };
        assert(history[i] == front[i]);
        assert(history.take(i) =~= front.take(i));
    } else {
        let i = history.len() - 1;
        assert(history[i] == history.last());
        assert(history.take(i) =~= front);
    }
}

/// The points of formant `idx` in a history.
pub fn formant_points(history: &VecDeque<FormantFrame>, idx: usize) -> (points: Vec<Position>)
    requires
        idx < 4,
    ensures
        coordinates(points@) == points_of(frame_values(history@), idx as int),
{
    let ghost all = frame_values(history@);
    let zero: Single = Single::zero();
    let mut points: Vec<Position> = Vec::new();
    let mut i: usize = 0;
    assert(all.take(0) =~= Seq::empty());
    assert(coordinates(points@) =~= Seq::empty());
    while i < history.len()
        invariant
            idx < 4,
            i <= history@.len(),
            all == frame_values(history@),
            zero@ == zero32(),
            coordinates(points@) == points_of(all.take(i as int), idx as int),
        decreases history@.len() - i,
    {
        let hz: Single = history[i].get(idx);
        let ghost before = points@;
        assert(all.take(i + 1).drop_last() =~= all.take(i as int));
        assert(all.take(i + 1).last() == history@[i as int]@);
        if zero.lt(hz) {
            points.push(
                Position { x: Double::from_whole(i as u64), y: Double::from_single(hz) },
            );
            assert(coordinates(points@) =~= coordinates(before).push(
                (whole64(i as nat), widen(hz@)),
            ));
        }
        i = i + 1;
    }
    assert(all.take(i as int) =~= all);
    points
}

impl FormantPlot {
    /// Where the name of formant `idx` floats: at the height of its last value, if it has
    /// one.
    pub fn label_position(&self, idx: usize) -> (r: Option<Position>)
        requires
            idx < 4,
        ensures
            match r {
                Some(p) => {
                    &&& is_present(self@.last_valid[idx as int])
                    &&& p@ == (whole64(295), widen(self@.last_valid[idx as int]))
                },
                None => !is_present(self@.last_valid[idx as int]),
            },
    {
        let hz: Single = self.last_valid.get(idx);
        if Single::zero().lt(hz) {
            Some(Position { x: Double::from_whole(295), y: Double::from_single(hz) })
        } else {
            None
        }
    }
}

} // verus!
