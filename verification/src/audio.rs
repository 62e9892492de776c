//! What happens to samples before they are analysed: one of two channels is kept, and the
//! samples are gathered into chunks for the resampler.

use crate::channel::{
    dequeue, dequeued, each_accepted, each_taken, enqueue, enqueued, lemma_one_more_taken,
};
use crate::float::{values, Single};
use crate::number::Num;
use heapless::spsc::{Consumer, Producer};
use vstd::arithmetic::div_mod::{
    lemma_fundamental_div_mod, lemma_fundamental_div_mod_converse, lemma_mod_bound,
};
use vstd::prelude::*;

verus! {

/// The sample rate of a compact disc in Hz, which the input has to have.
pub const CD_SAMPLE_RATE: u32 = 44_100;

/// The sample rate in Hz at which voices are analysed.
pub const TARGET_SAMPLE_RATE: u32 = 16_000;

/// The samples that the resampler takes at a time.
pub const RESAMPLER_CHUNK_LEN: usize = 1024;

/// How the input is to be resampled.
pub struct ResamplerCfg {
    pub input_rate: u32,
    pub target_rate: u32,
    pub chunk_size: usize,
}

impl ResamplerCfg {
    /// How input at the given rate is to be resampled.
    pub fn for_input(input_rate: u32) -> (r: Self)
        requires
            input_rate == CD_SAMPLE_RATE,
        ensures
            r.input_rate == input_rate,
            r.target_rate == 16_000,
            r.chunk_size == 1024,
    {
        ResamplerCfg {
            input_rate,
            target_rate: TARGET_SAMPLE_RATE,
            chunk_size: RESAMPLER_CHUNK_LEN,
        }
    }
}

/// The first of two interleaved channels: every other sample, from the first on.
pub open spec fn first_channel(s: Seq<Num>) -> Seq<Num> {
    Seq::new((s.len() + 1) / 2, |i: int| s[2 * i])
}

/// Two channels of the same length, sample by sample in turn.
pub open spec fn interleaved_channels(first: Seq<Num>, second: Seq<Num>) -> Seq<Num> {
    Seq::new(
        2 * first.len(),
        |i: int|
            if i % 2 == 0 {
                first[i / 2]
            } else {
                second[i / 2]
            },
    )
}

/// Taking the first channel undoes the interleaving of any two, also where the last sample
/// of the second is missing.
pub proof fn lemma_first_channel_comes_back(first: Seq<Num>, second: Seq<Num>)
    requires
        first.len() == second.len(),
    ensures
        first_channel(interleaved_channels(first, second)) == first,
        first.len() > 0 ==> first_channel(interleaved_channels(first, second).drop_last()) == first,
{
    let both = interleaved_channels(first, second);
    assert forall|i: int| 0 <= i < first.len() implies both[2 * i] == #[trigger] first[i] by {
        assert((2 * i) % 2 == 0 && (2 * i) / 2 == i);
    }
    assert(first_channel(both) =~= first);
    if first.len() > 0 {
        assert(first_channel(both.drop_last()) =~= first);
    }
}

/// Every other sample is kept, from the first on, and nothing else: sample `i` of the
/// channel is sample `2 * i` of the buffer.
pub proof fn lemma_first_channel_samples(s: Seq<Num>, i: int)
    requires
        0 <= i,
    ensures
        i < first_channel(s).len() <==> 2 * i < s.len(),
        2 * i < s.len() ==> first_channel(s)[i] == s[2 * i],
{
}

/// Puts the first of two interleaved channels into a queue, up to the first sample that
/// the queue refuses; says whether it took all of them. A refused sample is not offered
/// again, and nothing behind it is offered.
pub fn enqueue_first_channel(tx: &mut Producer<'static, Single>, interleaved: &[Single]) -> (r:
    bool)
    ensures
        ({
            let samples = first_channel(values(interleaved@));
            exists|n: int|
                {
                    let accepted = enqueued(*old(tx)) + each_accepted(#[trigger] samples.take(n));
                    if r {
                        &&& n == samples.len()
                        &&& enqueued(*final(tx)) == accepted
                    } else {
                        &&& 0 <= n < samples.len()
                        &&& enqueued(*final(tx)) == accepted.push((samples[n], false))
                    }
                }
        }),
        enqueued(*old(tx)).len() <= enqueued(*final(tx)).len(),
        forall|i: int|
            0 <= i < enqueued(*final(tx)).len() - enqueued(*old(tx)).len() ==> {
                &&& 2 * i < interleaved@.len()
                &&& (#[trigger] enqueued(*final(tx))[enqueued(*old(tx)).len() + i]).0
                    == interleaved@[2 * i]@
            },
{
    let ghost samples = first_channel(values(interleaved@));
    let ghost before = enqueued(*tx);
    let len: usize = interleaved.len();
    let count: usize = len / 2 + len % 2;
    let mut n: usize = 0;
    assert(before =~= before + each_accepted(samples.take(0)));
    while n < count
        invariant
            len == interleaved@.len(),
            count == len / 2 + len % 2,
            samples == first_channel(values(interleaved@)),
            before == enqueued(*old(tx)),
            n <= count == samples.len(),
            enqueued(*tx) == before + each_accepted(samples.take(n as int)),
        decreases count - n,
    {
        let sample: Single = interleaved[2 * n];
        assert(sample@ == samples[n as int]);
        if !enqueue(tx, sample) {
            return false;
        }
        assert(before + each_accepted(samples.take(n + 1)) =~= (before + each_accepted(
            samples.take(n as int),
        )).push((sample@, true)));
        n = n + 1;
    }
    true
}

/// What becomes of the samples that one call takes out of a queue.
pub struct Filling {
    /// the samples that came out
    pub taken: Seq<Num>,
    /// the chunk that they completed
    pub chunk: Option<Seq<Num>>,
    /// the samples that are left in the buffer
    pub left: Seq<Num>,
}

impl Filling {
    /// Whether this is what happens to a buffer that holds the samples `before`: the first
    /// sample with which there are `chunk_size` completes a chunk, and is the last to be
    /// taken.
    pub open spec fn follows(self, chunk_size: nat, before: Seq<Num>) -> bool {
        let gathered = before + self.taken;
        &&& forall|n: int|
            0 < n < self.taken.len() ==> #[trigger] (before.len() + n) != chunk_size
        &&& match self.chunk {
            Some(chunk) => {
                &&& self.taken.len() > 0
                &&& gathered.len() == chunk_size
                &&& chunk == gathered
                &&& self.left == Seq::<Num>::empty()
            },
            None => {
                &&& self.taken.len() > 0 ==> gathered.len() != chunk_size
                &&& self.left == gathered
            },
        }
    }
}

/// Gathers samples until there are enough for the resampler.
pub struct ChunkBuffer {
    /// the samples of the chunk that is not complete yet
    pub samples: Vec<Single>,
    /// the samples of a complete chunk
    pub chunk_size: usize,
}

impl ChunkBuffer {
    /// A buffer without samples.
    pub fn new(chunk_size: usize) -> (r: Self)
        ensures
            r.samples@ == Seq::<Single>::empty(),
            r.chunk_size == chunk_size,
    {
        ChunkBuffer { samples: Vec::new(), chunk_size }
    }

    /// Adds a sample. If that completes a chunk, the chunk is handed out and the buffer is
    /// empty again.
    pub fn push(&mut self, sample: Single) -> (r: Option<Vec<Single>>)
        ensures
            final(self).chunk_size == old(self).chunk_size,
            ({
                let gathered = old(self).samples@.push(sample);
                match r {
                    Some(chunk) => {
                        &&& gathered.len() == old(self).chunk_size
                        &&& chunk@ == gathered
                        &&& final(self).samples@ == Seq::<Single>::empty()
                    },
                    None => {
                        &&& gathered.len() != old(self).chunk_size
                        &&& final(self).samples@ == gathered
                    },
                }
            }),
    {
        self.samples.push(sample);
        if self.samples.len() == self.chunk_size {
            let chunk: Vec<Single> = self.samples.split_off(0);
            assert(chunk@ =~= old(self).samples@.push(sample));
            assert(self.samples@ =~= Seq::<Single>::empty());
            Some(chunk)
        } else {
            None
        }
    }

    /// Takes samples out of a queue until a chunk is complete, which is handed out, or
    /// until nothing comes out.
    pub fn fill(&mut self, rx: &mut Consumer<'static, Single>) -> (r: Option<Vec<Single>>)
        ensures
            final(self).chunk_size == old(self).chunk_size,
            exists|f: Filling|
                {
                    let attempts = dequeued(*old(rx)) + each_taken(f.taken);
                    &&& #[trigger] f.follows(
                        old(self).chunk_size as nat,
                        values(old(self).samples@),
                    )
                    &&& f.left == values(final(self).samples@)
                    &&& match r {
                        Some(chunk) => {
                            &&& f.chunk == Some(values(chunk@))
                            &&& dequeued(*final(rx)) == attempts
                        },
                        None => {
                            &&& f.chunk is None
                            &&& dequeued(*final(rx)) == attempts.push(None)
                        },
                    }
                },
    {
        let ghost before = values(self.samples@);
        let ghost start = dequeued(*rx);
        let ghost mut taken: Seq<Num> = Seq::empty();
        // more samples than a buffer can hold
        let mut left: u128 = u128::MAX;
        assert(start =~= start + each_taken(taken));
        assert(before =~= before + taken);
        while left > 0
            invariant
                self.chunk_size == old(self).chunk_size,
                before == values(old(self).samples@),
                start == dequeued(*old(rx)),
                dequeued(*rx) == start + each_taken(taken),
                values(self.samples@) == before + taken,
                forall|n: int|
                    0 < n <= taken.len() ==> #[trigger] (before.len() + n) != self.chunk_size,
                left + taken.len() == u128::MAX,
            decreases left,
        {
            match dequeue(rx) {
                Some(sample) => {
                    let ghost more = taken.push(sample@);
                    let ghost earlier = self.samples@;
                    proof {
                        lemma_one_more_taken(taken, sample@);
                    }
                    assert(start + each_taken(more) =~= (start + each_taken(taken)).push(
                        Some(sample@),
                    ));
                    assert(before + more =~= (before + taken).push(sample@));
                    assert(values(earlier.push(sample)) =~= values(earlier).push(sample@));
                    assert(values(earlier).len() == earlier.len());
                    let complete: Option<Vec<Single>> = self.push(sample);
                    proof {
                        taken = more;
                    }
                    if let Some(chunk) = complete {
                        proof {
                            let f = Filling {
                                taken,
                                chunk: Some(values(chunk@)),
                                left: values(self.samples@),
                            };
                            assert(f.left =~= Seq::empty());
                            assert(f.follows(self.chunk_size as nat, before));
                        }
                        return Some(chunk);
                    }
                    left = left - 1;
                },
                None => {
                    proof {
                        let f = Filling { taken, chunk: None, left: values(self.samples@) };
                        assert(f.follows(self.chunk_size as nat, before));
                    }
                    return None;
                },
            }
        }
        let len: usize = self.samples.len();
        assert(values(self.samples@).len() == len);
        assert(false);
        None
    }
}

/// The consecutive blocks of `chunk_size` samples.
pub open spec fn chunks_of(s: Seq<Num>, chunk_size: nat) -> Seq<Seq<Num>> {
    if chunk_size == 0 {
        Seq::empty()
    } else {
        Seq::new(
            s.len() / chunk_size,
            |k: int| s.subrange(k * chunk_size, (k + 1) * chunk_size),
        )
    }
}

/// The samples behind the last whole block.
pub open spec fn rest_of(s: Seq<Num>, chunk_size: nat) -> Seq<Num> {
    if chunk_size == 0 {
        s
    } else {
        s.skip((s.len() / chunk_size) as int * chunk_size)
    }
}

/// Whether each call starts with what the one before has left, and the first with nothing.
pub open spec fn are_successive(calls: Seq<Filling>, chunk_size: nat) -> bool {
    forall|i: int|
        0 <= i < calls.len() ==> (#[trigger] calls[i]).follows(
            chunk_size,
            if i == 0 {
                Seq::empty()
            } else {
                calls[i - 1].left
            },
        )
}

/// The samples that some calls take, in order.
pub open spec fn all_taken(calls: Seq<Filling>) -> Seq<Num>
    decreases calls.len(),
{
    if calls.len() == 0 {
        Seq::empty()
    } else {
        all_taken(calls.drop_last()) + calls.last().taken
    }
}

/// The chunks that some calls hand out, in order.
pub open spec fn all_chunks(calls: Seq<Filling>) -> Seq<Seq<Num>>
    decreases calls.len(),
{
    if calls.len() == 0 {
        Seq::empty()
    } else {
        match calls.last().chunk {
            Some(chunk) => all_chunks(calls.drop_last()).push(chunk),
            None => all_chunks(calls.drop_last()),
        }
    }
}

/// No sample is lost, doubled or moved, however the calls come: the chunks that a buffer
/// hands out from the start on are the consecutive blocks of what was taken out of the
/// queue, and the buffer holds the rest.
pub proof fn lemma_chunks_of_stream(calls: Seq<Filling>, chunk_size: nat)
    requires
        are_successive(calls, chunk_size),
    ensures
        all_chunks(calls) == chunks_of(all_taken(calls), chunk_size),
        calls.len() > 0 ==> calls.last().left == rest_of(all_taken(calls), chunk_size),
    decreases calls.len(),
{
    if calls.len() > 0 {
        let front = calls.drop_last();
        let s = all_taken(front);
        assert forall|i: int| 0 <= i < front.len() implies (#[trigger] front[i]).follows(
            chunk_size,
            if i == 0 {
                Seq::empty()
            } else {
                front[i - 1].left
            },
        ) by {
            assert(front[i] == calls[i]);
        }
        lemma_chunks_of_stream(front, chunk_size);
        if front.len() == 0 {
            lemma_nothing_in_chunks(chunk_size);
        }
        assert(calls[calls.len() - 1] == calls.last());
        lemma_chunks_after(s, calls.last(), chunk_size);
    } else {
        lemma_nothing_in_chunks(chunk_size);
    }
}

proof fn lemma_nothing_in_chunks(chunk_size: nat)
    ensures
        chunks_of(Seq::empty(), chunk_size) == Seq::<Seq<Num>>::empty(),
        rest_of(Seq::empty(), chunk_size) == Seq::<Num>::empty(),
{
    if chunk_size > 0 {
        vstd::arithmetic::div_mod::lemma_div_basics(chunk_size as int);
        assert(0 * chunk_size == 0);
    }
    assert(chunks_of(Seq::empty(), chunk_size) =~= Seq::<Seq<Num>>::empty());
    assert(rest_of(Seq::empty(), chunk_size) =~= Seq::<Num>::empty());
}

/// One more call, on a buffer that holds the rest of the samples before.
#[verifier::rlimit(40)]
proof fn lemma_chunks_after(s: Seq<Num>, call: Filling, chunk_size: nat)
    requires
        call.follows(chunk_size, rest_of(s, chunk_size)),
    ensures
        chunks_of(s + call.taken, chunk_size) == match call.chunk {
            Some(chunk) => chunks_of(s, chunk_size).push(chunk),
            None => chunks_of(s, chunk_size),
        },
        rest_of(s + call.taken, chunk_size) == call.left,
{
    let all = s + call.taken;
    let before = rest_of(s, chunk_size);
    if chunk_size > 0 {
        let c = chunk_size as int;
        let q = s.len() as int / c;
        let r = s.len() as int % c;
        lemma_fundamental_div_mod(s.len() as int, c);
        lemma_mod_bound(s.len() as int, c);
        assert(c * q == q * c) by (nonlinear_arith);
        assert(q >= 0) by (nonlinear_arith)
            requires
                s.len() == q * c + r,
                r < c,
                c > 0,
                s.len() >= 0,
        ;
        assert(before.len() == r);
        let len = all.len() as int;
        if call.chunk is Some {
            assert((q + 1) * c == q * c + c) by (nonlinear_arith);
            lemma_fundamental_div_mod_converse(len, c, q + 1, 0);
        } else {
            if r + call.taken.len() >= c {
                let n = c - r;
                assert(before.len() + n == c);
            }
            lemma_fundamental_div_mod_converse(len, c, q, r + call.taken.len());
        }
        assert forall|k: int| 0 <= k < q implies #[trigger] chunks_of(all, chunk_size)[k]
            == chunks_of(s, chunk_size)[k] by {
            assert(0 <= k * c <= (k + 1) * c <= q * c) by (nonlinear_arith)
                requires
                    0 <= k < q,
                    c > 0,
            ;
            assert(all.subrange(k * c, (k + 1) * c) =~= s.subrange(k * c, (k + 1) * c));
        }
        if let Some(chunk) = call.chunk {
            assert(all.subrange(q * c, (q + 1) * c) =~= chunk);
            assert(chunks_of(all, chunk_size) =~= chunks_of(s, chunk_size).push(chunk));
            assert(rest_of(all, chunk_size) =~= call.left);
        } else {
            assert(chunks_of(all, chunk_size) =~= chunks_of(s, chunk_size));
            assert(rest_of(all, chunk_size) =~= call.left);
        }
    }
}

/// Blocks are cut one after the other: the first is the first `chunk_size` samples, and the
/// others, and the rest, are those of the samples behind it. Nothing is cut from less.
#[verifier::rlimit(40)]
pub proof fn lemma_chunks_one_by_one(s: Seq<Num>, chunk_size: nat)
    requires
        chunk_size > 0,
    ensures
        s.len() < chunk_size ==> chunks_of(s, chunk_size) == Seq::<Seq<Num>>::empty() && rest_of(
            s,
            chunk_size,
        ) == s,
        s.len() >= chunk_size ==> {
            let behind = s.skip(chunk_size as int);
            &&& chunks_of(s, chunk_size) == seq![s.take(chunk_size as int)] + chunks_of(
                behind,
                chunk_size,
            )
            &&& rest_of(s, chunk_size) == rest_of(behind, chunk_size)
        },
{
    let c = chunk_size as int;
    let len = s.len() as int;
    lemma_fundamental_div_mod(len, c);
    lemma_mod_bound(len, c);
    let (q, r) = (len / c, len % c);
    assert(c * q == q * c) by (nonlinear_arith);
    if len < c {
        lemma_fundamental_div_mod_converse(len, c, 0, len);
        assert(0 * c == 0);
        assert(chunks_of(s, chunk_size) =~= Seq::<Seq<Num>>::empty());
        assert(rest_of(s, chunk_size) =~= s);
    } else {
        let t = s.skip(c);
        assert((q - 1) * c == q * c - c) by (nonlinear_arith);
        assert(q >= 1) by (nonlinear_arith)
            requires
                len == q * c + r,
                r < c,
                len >= c,
                c > 0,
        ;
        lemma_fundamental_div_mod_converse(len - c, c, q - 1, r);
        let joined = seq![s.take(c)] + chunks_of(t, chunk_size);
        assert forall|k: int| 0 <= k < q implies #[trigger] chunks_of(s, chunk_size)[k]
            == joined[k] by {
            if k == 0 {
                assert(0 * c == 0 && 1 * c == c);
                assert(s.subrange(0, c) =~= s.take(c));
            } else {
                let j = k - 1;
                assert(k * c == j * c + c && (k + 1) * c == (j + 1) * c + c && 0 <= j * c)
                    by (nonlinear_arith)
                    requires
                        k == j + 1,
                        j >= 0,
                        c > 0,
                ;
                assert((k + 1) * c <= q * c) by (nonlinear_arith)
                    requires
                        k + 1 <= q,
                        c > 0,
                ;
                assert(s.subrange(k * c, (k + 1) * c) =~= t.subrange(j * c, (j + 1) * c));
            }
        }
        assert(chunks_of(s, chunk_size) =~= joined);
        assert(rest_of(s, chunk_size) =~= rest_of(t, chunk_size));
    }
}

} // verus!
