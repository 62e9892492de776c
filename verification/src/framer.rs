//! Cutting a stream of samples into overlapping frames of one length.

use crate::float::Single;
use vstd::arithmetic::div_mod::{
    lemma_fundamental_div_mod, lemma_fundamental_div_mod_converse, lemma_mod_bound,
};
use vstd::prelude::*;

verus! {

/// How many frames of `window` samples, each `hop` after the one before, are cut from
/// `len` samples.
pub open spec fn frame_count(len: nat, window: nat, hop: nat) -> nat {
    if len < window {
        0
    } else {
        (len - window) as nat / hop + 1
    }
}

/// The frames that are cut from the samples `s`.
pub open spec fn frames_of(s: Seq<Single>, window: nat, hop: nat) -> Seq<Seq<Single>> {
    Seq::new(
        frame_count(s.len(), window, hop),
        |k: int| s.subrange(k * hop, k * hop + window),
    )
}

/// The samples that stay behind after every whole frame is cut: each frame takes its
/// first `hop` samples with it.
pub open spec fn left_over(s: Seq<Single>, window: nat, hop: nat) -> Seq<Single> {
    s.skip((frame_count(s.len(), window, hop) * hop) as int)
}

/// Whether cutting frames from `len` samples comes to an end with no frame asking to
/// remove more samples than there are.
pub open spec fn can_cut(len: nat, window: nat, hop: nat) -> bool {
    len < window || (hop > 0 && (hop <= window || len % hop < window))
}

/// Whether one more frame is due after `k` were cut.
proof fn lemma_frame_due(len: nat, window: nat, hop: nat, k: nat)
    requires
        can_cut(len, window, hop),
        k <= frame_count(len, window, hop),
        k * hop <= len,
    ensures
        k < frame_count(len, window, hop) <==> len - k * hop >= window,
        k < frame_count(len, window, hop) ==> len - k * hop >= hop,
        k < frame_count(len, window, hop) ==> (k + 1) * hop == k * hop + hop,
{
    let n = frame_count(len, window, hop);
    let h = hop as int;
    assert((k + 1) * hop == k * hop + hop) by (nonlinear_arith);
    if len >= window {
        let d = len - window;
        let q = d / h;
        lemma_fundamental_div_mod(d, h);
        lemma_mod_bound(d, h);
        if k <= q {
            assert(k * h <= h * q) by (nonlinear_arith)
                requires
                    k <= q,
                    h > 0,
            ;
            if hop > window {
                // the samples left are a multiple of `hop` above the remainder
                let r = len as int % h;
                let m = len as int / h;
                lemma_fundamental_div_mod(len as int, h);
                if len - k * h < h {
                    assert(m == k) by (nonlinear_arith)
                        requires
                            len == h * m + r,
                            0 <= r < h,
                            0 <= len - k * h < h,
                            h > 0,
                    ;
                    assert(h * m == k * h) by (nonlinear_arith)
                        requires
                            m == k,
                    ;
                    assert(false);
                }
            }
        } else {
            assert(k * h >= h * q + h) by (nonlinear_arith)
                requires
                    k >= q + 1,
                    h > 0,
            ;
        }
    }
}

/// The number of frames is the only one after which less than a frame is left, and the
/// hops of the frames stay within the samples.
proof fn lemma_frame_count_unique(len: nat, window: nat, hop: nat, k: nat)
    requires
        hop > 0 || k == 0,
        k * hop <= len,
        len - k * hop < window,
        k == 0 || len - (k - 1) * hop >= window,
    ensures
        frame_count(len, window, hop) == k,
{
    if k > 0 {
        let h = hop as int;
        let j = k - 1;
        let d = len - window;
        assert((k - 1) * h == k * h - h) by (nonlinear_arith);
        lemma_fundamental_div_mod_converse(d, h, j, d - j * h);
    }
}

/// What `frame_count` means: after that many hops less than a frame is left, and before
/// the last of them there was a whole frame.
proof fn lemma_frame_count_bounds(len: nat, window: nat, hop: nat)
    requires
        can_cut(len, window, hop),
    ensures
        ({
            let k = frame_count(len, window, hop);
            &&& k * hop <= len
            &&& len - k * hop < window
            &&& k == 0 || len - (k - 1) * hop >= window
        }),
{
    if len >= window {
        let h = hop as int;
        let d = len - window;
        let q = d / h;
        lemma_fundamental_div_mod(d, h);
        lemma_mod_bound(d, h);
        assert((q + 1) * h == h * q + h) by (nonlinear_arith);
        assert(q * h == h * q) by (nonlinear_arith);
        assert(q >= 0) by (nonlinear_arith)
            requires
                d == h * q + d % h,
                0 <= d % h < h,
                d >= 0,
        ;
        lemma_frame_due(len, window, hop, q as nat);
    }
}

/// How a stream is divided into deliveries does not matter: the samples `s` and then the
/// samples `t` lead to the same frames, and leave the same samples behind, as all of them
/// at once.
pub proof fn lemma_frames_of_stream(s: Seq<Single>, t: Seq<Single>, window: nat, hop: nat)
    requires
        can_cut(s.len(), window, hop),
        can_cut((left_over(s, window, hop) + t).len(), window, hop),
    ensures
        ({
            let rest = left_over(s, window, hop);
            &&& frames_of(s + t, window, hop) == frames_of(s, window, hop) + frames_of(
                rest + t,
                window,
                hop,
            )
            &&& left_over(s + t, window, hop) == left_over(rest + t, window, hop)
        }),
{
    let h = hop as int;
    let all = s + t;
    let rest = left_over(s, window, hop);
    let later = rest + t;
    let n = frame_count(s.len(), window, hop);
    let m = frame_count(later.len(), window, hop);
    lemma_frame_count_bounds(s.len(), window, hop);
    lemma_frame_count_bounds(later.len(), window, hop);
    assert(later.len() == all.len() - n * hop);
    assert((n + m) * h == n * h + m * h) by (nonlinear_arith);
    assert((n + m - 1) * h == (n - 1) * h + m * h) by (nonlinear_arith);
    assert((n + m - 1) * h == n * h + (m - 1) * h) by (nonlinear_arith);
    if m == 0 {
        assert((m * h) == 0) by (nonlinear_arith)
            requires
                m == 0,
        ;
    }
    lemma_frame_count_unique(all.len(), window, hop, n + m);
    let joined = frames_of(s, window, hop) + frames_of(later, window, hop);
    assert forall|k: int| 0 <= k < n + m implies frames_of(all, window, hop)[k] == joined[k] by {
        if k < n {
            assert(k * h <= (n - 1) * h) by (nonlinear_arith)
                requires
                    k <= n - 1,
                    h > 0,
            ;
            assert(0 <= k * h) by (nonlinear_arith)
                requires
                    0 <= k,
                    h > 0,
            ;
            assert(all.subrange(k * hop, k * hop + window) =~= s.subrange(
                k * hop,
                k * hop + window,
            ));
        } else {
            let j = k - n;
            assert(k * h == n * h + j * h) by (nonlinear_arith)
                requires
                    k == n + j,
            ;
            assert(j * h <= (m - 1) * h) by (nonlinear_arith)
                requires
                    j <= m - 1,
                    h > 0,
            ;
            assert(0 <= j * h) by (nonlinear_arith)
                requires
                    0 <= j,
                    h > 0,
            ;
            assert(all.subrange(k * hop, k * hop + window) =~= later.subrange(
                j * hop,
                j * hop + window,
            ));
        }
    }
    assert(frames_of(all, window, hop) =~= joined);
    assert(left_over(all, window, hop) =~= left_over(later, window, hop));
}

/// Frames are cut one after the other: the first is the first `window` samples, and the
/// others, and what stays behind, are those of the samples from `hop` on. Nothing is cut
/// from less than a frame.
#[verifier::rlimit(40)]
pub proof fn lemma_frames_one_by_one(s: Seq<Single>, window: nat, hop: nat)
    requires
        can_cut(s.len(), window, hop),
    ensures
        s.len() < window ==> frames_of(s, window, hop) == Seq::<Seq<Single>>::empty()
            && left_over(s, window, hop) == s,
        s.len() >= window ==> {
            &&& hop <= s.len()
            &&& can_cut((s.len() - hop) as nat, window, hop)
            &&& frames_of(s, window, hop) == seq![s.take(window as int)] + frames_of(
                s.skip(hop as int),
                window,
                hop,
            )
            &&& left_over(s, window, hop) == left_over(s.skip(hop as int), window, hop)
        },
{
    let n = frame_count(s.len(), window, hop);
    let h = hop as int;
    if s.len() < window {
        assert(0 * hop == 0) by (nonlinear_arith);
        assert(frames_of(s, window, hop) =~= Seq::<Seq<Single>>::empty());
        assert(left_over(s, window, hop) =~= s);
    } else {
        assert(0 * hop == 0) by (nonlinear_arith);
        lemma_frame_due(s.len(), window, hop, 0);
        lemma_frame_count_bounds(s.len(), window, hop);
        let t = s.skip(h);
        let len = s.len() as int;
        let m = (n - 1) as nat;
        if hop > window && len - h >= window {
            vstd::arithmetic::div_mod::lemma_mod_sub_multiples_vanish(len, h);
            assert((len - h) % h == len % h) by {
                vstd::arithmetic::div_mod::lemma_mod_sub_multiples_vanish(len, h);
                assert((-h + len) % h == len % h);
            }
        }
        assert((n - 1) * h == n * h - h) by (nonlinear_arith);
        if m > 0 {
            assert((m - 1) * h == (n - 1) * h - h) by (nonlinear_arith)
                requires
                    m == n - 1,
            ;
            lemma_frame_due(s.len(), window, hop, m);
        }
        assert(m * hop == n * h - h);
        lemma_frame_count_unique(t.len(), window, hop, m);
        let rest = frames_of(t, window, hop);
        let joined = seq![s.take(window as int)] + rest;
        assert forall|k: int| 0 <= k < n implies #[trigger] frames_of(s, window, hop)[k]
            == joined[k] by {
            if k == 0 {
                assert(0 * h == 0);
                assert(s.subrange(0, window as int) =~= s.take(window as int));
            } else {
                let j = k - 1;
                assert(k * h == j * h + h && 0 <= j * h) by (nonlinear_arith)
                    requires
                        k == j + 1,
                        j >= 0,
                        h >= 0,
                ;
                assert(k * h <= (n - 1) * h) by (nonlinear_arith)
                    requires
                        k <= n - 1,
                        h >= 0,
                ;
                assert(s.subrange(k * h, k * h + window) =~= t.subrange(j * h, j * h + window));
            }
        }
        assert(frames_of(s, window, hop) =~= joined);
        assert(left_over(s, window, hop) =~= left_over(t, window, hop));
    }
}

/// Each frame starts `hop` samples after the one before.
pub proof fn lemma_frames_overlap(s: Seq<Single>, window: nat, hop: nat)
    requires
        can_cut(s.len(), window, hop),
    ensures
        forall|k: int, i: int|
            0 <= k < frames_of(s, window, hop).len() - 1 && 0 <= i < window - hop
                ==> #[trigger] frames_of(s, window, hop)[k + 1][i] == frames_of(s, window, hop)[k][i
                + hop],
{
    let h = hop as int;
    let frames = frames_of(s, window, hop);
    lemma_frame_count_bounds(s.len(), window, hop);
    let n = frames.len() as int;
    assert forall|k: int, i: int|
        0 <= k < frames.len() - 1 && 0 <= i < window - hop implies #[trigger] frames[k + 1][i]
        == frames[k][i + hop] by {
        assert((k + 1) * h == k * h + h && 0 <= k * h) by (nonlinear_arith)
            requires
                k >= 0,
                h >= 0,
        ;
        assert((k + 1) * h <= (n - 1) * h) by (nonlinear_arith)
            requires
                k + 1 <= n - 1,
                h >= 0,
        ;
        assert(frames[k] == s.subrange(k * h, k * h + window));
        assert(frames[k + 1] == s.subrange((k + 1) * h, (k + 1) * h + window));
    }
}

/// Collects samples as they arrive and hands out a frame whenever enough are there.
pub struct LpcFramer {
    /// the samples that are in no whole frame yet
    pub accumulator: Vec<Single>,
    /// the samples of a frame
    pub window_size: usize,
    /// the samples from the start of one frame to the start of the next
    pub hop_size: usize,
}

impl LpcFramer {
    /// A framer that has received nothing.
    pub fn new(window_size: usize, hop_size: usize) -> (r: Self)
        ensures
            r.accumulator@ == Seq::<Single>::empty(),
            r.window_size == window_size,
            r.hop_size == hop_size,
    {
        LpcFramer { accumulator: Vec::new(), window_size, hop_size }
    }

    /// Appends samples to those collected.
    fn collect(&mut self, new_samples: &[Single])
        ensures
            final(self).accumulator@ == old(self).accumulator@ + new_samples@,
            final(self).window_size == old(self).window_size,
            final(self).hop_size == old(self).hop_size,
    {
        let mut i: usize = 0;
        while i < new_samples.len()
            invariant
                i <= new_samples@.len(),
                self.accumulator@ == old(self).accumulator@ + new_samples@.take(i as int),
                self.window_size == old(self).window_size,
                self.hop_size == old(self).hop_size,
            decreases new_samples@.len() - i,
        {
            self.accumulator.push(new_samples[i]);
            assert(new_samples@.take(i + 1) =~= new_samples@.take(i as int).push(
                new_samples@[i as int],
            ));
            i = i + 1;
        }
        assert(new_samples@.take(i as int) =~= new_samples@);
    }

    /// Takes in new samples and cuts off the frames of `window` samples that are now
    /// complete, oldest first.
    fn cut_frames(&mut self, new_samples: &[Single], window: usize) -> (frames: Vec<Vec<Single>>)
        requires
            can_cut(
                old(self).accumulator@.len() + new_samples@.len(),
                window as nat,
                old(self).hop_size as nat,
            ),
        ensures
            ({
                let all = old(self).accumulator@ + new_samples@;
                let window = window as nat;
                let hop = old(self).hop_size as nat;
                let cut = frames_of(all, window, hop);
                &&& frames@.len() == cut.len()
                &&& forall|k: int|
                    0 <= k < cut.len() ==> (#[trigger] frames@[k])@ == cut[k] && cut[k].len()
                        == window
                &&& final(self).accumulator@ == left_over(all, window, hop)
            }),
            final(self).window_size == old(self).window_size,
            final(self).hop_size == old(self).hop_size,
    {
        self.collect(new_samples);
        let ghost all = old(self).accumulator@ + new_samples@;
        let hop: usize = self.hop_size;
        let mut frames: Vec<Vec<Single>> = Vec::new();
        let mut start: usize = 0;
        proof {
            lemma_frame_due(all.len(), window as nat, hop as nat, 0);
        }
        let len: usize = self.accumulator.len();
        while len - start >= window
            invariant
                len == all.len(),
                self.accumulator@ == all,
                self.window_size == old(self).window_size,
                self.hop_size == hop,
                can_cut(all.len(), window as nat, hop as nat),
                frames@.len() <= frame_count(all.len(), window as nat, hop as nat),
                start == frames@.len() * hop,
                start <= all.len(),
                all.len() - start >= window <==> frames@.len() < frame_count(
                    all.len(),
                    window as nat,
                    hop as nat,
                ),
                forall|k: int|
                    0 <= k < frames@.len() ==> (#[trigger] frames@[k])@ == all.subrange(
                        k * hop,
                        k * hop + window,
                    ) && frames@[k]@.len() == window,
            decreases all.len() - start,
        {
            let mut frame: Vec<Single> = Vec::new();
            let mut i: usize = 0;
            while i < window
                invariant
                    i <= window,
                    start + window <= len == all.len(),
                    self.accumulator@ == all,
                    frame@ == all.subrange(start as int, start + i),
                decreases window - i,
            {
                frame.push(self.accumulator[start + i]);
                assert(all.subrange(start as int, start + i + 1) =~= all.subrange(
                    start as int,
                    start + i,
                ).push(all[start + i]));
                i = i + 1;
            }
            let ghost n = frames@.len();
            proof {
                lemma_frame_due(all.len(), window as nat, hop as nat, n);
                lemma_frame_due(all.len(), window as nat, hop as nat, n + 1);
            }
            frames.push(frame);
            start = start + hop;
        }
        let rest: Vec<Single> = self.accumulator.split_off(start);
        self.accumulator = rest;
        assert(self.accumulator@ =~= left_over(all, window as nat, hop as nat));
        frames
    }

    /// Takes in new samples and returns the frames that are now complete, oldest first.
    pub fn push_and_maybe_analyze(&mut self, new_samples: &[Single]) -> (frames: Vec<Vec<Single>>)
        requires
            can_cut(
                old(self).accumulator@.len() + new_samples@.len(),
                old(self).window_size as nat,
                old(self).hop_size as nat,
            ),
        ensures
            ({
                let all = old(self).accumulator@ + new_samples@;
                let window = old(self).window_size as nat;
                let hop = old(self).hop_size as nat;
                let cut = frames_of(all, window, hop);
                &&& frames@.len() == cut.len()
                &&& forall|k: int| 0 <= k < cut.len() ==> (#[trigger] frames@[k])@ == cut[k]
                &&& final(self).accumulator@ == left_over(all, window, hop)
            }),
            final(self).window_size == old(self).window_size,
            final(self).hop_size == old(self).hop_size,
    {
        let window: usize = self.window_size;
        self.cut_frames(new_samples, window)
    }

    /// Takes in new samples and returns the frames of `N` samples that are now complete,
    /// oldest first.
    pub fn push_and_maybe_analyze_arr<const N: usize>(
        &mut self,
        new_samples: &[Single],
    ) -> (frames: Vec<[Single; N]>)
        requires
            can_cut(
                old(self).accumulator@.len() + new_samples@.len(),
                N as nat,
                old(self).hop_size as nat,
            ),
        ensures
            ({
                let all = old(self).accumulator@ + new_samples@;
                let window = N as nat;
                let hop = old(self).hop_size as nat;
                let cut = frames_of(all, window, hop);
                &&& frames@.len() == cut.len()
                &&& forall|k: int| 0 <= k < cut.len() ==> (#[trigger] frames@[k])@ == cut[k]
                &&& final(self).accumulator@ == left_over(all, window, hop)
            }),
            final(self).window_size == old(self).window_size,
            final(self).hop_size == old(self).hop_size,
    {
        let cut: Vec<Vec<Single>> = self.cut_frames(new_samples, N);
        let mut frames: Vec<[Single; N]> = Vec::new();
        let mut n: usize = 0;
        while n < cut.len()
            invariant
                n == frames@.len() <= cut@.len(),
                forall|k: int| 0 <= k < cut@.len() ==> (#[trigger] cut@[k])@.len() == N,
                forall|k: int| 0 <= k < n ==> (#[trigger] frames@[k])@ == cut@[k]@,
            decreases cut@.len() - n,
        {
            let mut frame: [Single; N] = [Single::zero(); N];
            let mut i: usize = 0;
            while i < N
                invariant
                    i <= N,
                    n < cut@.len(),
                    cut@[n as int]@.len() == N,
                    forall|m: int| 0 <= m < i ==> #[trigger] frame@[m] == cut@[n as int]@[m],
                decreases N - i,
            {
                frame[i] = cut[n][i];
                i = i + 1;
            }
            assert(frame@ =~= cut@[n as int]@);
            frames.push(frame);
            n = n + 1;
        }
        frames
    }
}

} // verus!
