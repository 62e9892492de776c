//! From the coefficients of an all-pole filter to the resonances of a voice: the poles are
//! the eigenvalues of the companion matrix, and each complex pair of them that lies close
//! enough to the unit circle is a formant.

use crate::float::{values, Single};
use crate::lpc::{pi, pi32};
use crate::number::{binary32, diff32, prod32, quot32, sum32, whole32, zero32, Num};
use crate::laws::{lemma_whole_exact, lemma_whole_order};
use crate::order::{lemma_below_is_strict_order, lemma_positive_equal};
use crate::rounding::lemma_over_holds;
use vstd::prelude::*;

verus! {

/// Entry (`i`, `j`) of the companion matrix of a filter with the given forward
/// coefficients: their negatives on top, ones below the diagonal.
pub open spec fn companion_entry(coefficients: Seq<Num>, i: int, j: int) -> Num {
    if i == 0 {
        coefficients[j].minus()
    } else if j == i - 1 {
        whole32(1)
    } else {
        zero32()
    }
}

/// The companion matrix of a filter, row by row, from the forward coefficients without
/// the leading one.
pub fn companion_matrix(in_buf: &[Single]) -> (m: Vec<Vec<Single>>)
    ensures
        m@.len() == in_buf@.len(),
        forall|i: int|
            0 <= i < in_buf@.len() ==> (#[trigger] m@[i])@.len() == in_buf@.len(),
        forall|i: int, j: int|
            0 <= i < in_buf@.len() && 0 <= j < in_buf@.len() ==> (#[trigger] m@[i]@[j])@
                == companion_entry(values(in_buf@), i, j),
{
    let n: usize = in_buf.len();
    let one: Single = Single::from_whole(1);
    let zero: Single = Single::zero();
    let mut m: Vec<Vec<Single>> = Vec::new();
    let mut i: usize = 0;
    while i < n
        invariant
            i <= n == in_buf@.len(),
            one@ == whole32(1),
            zero@ == zero32(),
            m@.len() == i,
            forall|r: int| 0 <= r < i ==> (#[trigger] m@[r])@.len() == n,
            forall|r: int, c: int|
                0 <= r < i && 0 <= c < n ==> (#[trigger] m@[r]@[c])@ == companion_entry(
                    values(in_buf@),
                    r,
                    c,
                ),
        decreases n - i,
    {
        let mut row: Vec<Single> = Vec::new();
        let mut j: usize = 0;
        while j < n
            invariant
                i < n == in_buf@.len(),
                j <= n,
                one@ == whole32(1),
                zero@ == zero32(),
                row@.len() == j,
                forall|c: int|
                    0 <= c < j ==> (#[trigger] row@[c])@ == companion_entry(
                        values(in_buf@),
                        i as int,
                        c,
                    ),
            decreases n - j,
        {
            let entry: Single = if i == 0 {
                in_buf[j].neg()
            } else if j == i - 1 {
                one
            } else {
                zero
            };
            row.push(entry);
            j = j + 1;
        }
        m.push(row);
        i = i + 1;
    }
    m
}

/// The distance of a pole from the origin.
pub open spec fn pole_distance(re: Num, im: Num) -> Num {
    sum32(prod32(re, re), prod32(im, im)).root(binary32())
}

/// The distance of the pole `re + im * i` from the origin.
pub fn pole_magnitude(re: Single, im: Single) -> (r: Single)
    ensures
        r@ == pole_distance(re@, im@),
{
    re.mul(re).add(im.mul(im)).sqrt()
}

/// A pole of the filter: its imaginary part, its angle, and the natural logarithm of its
/// distance from the origin.
#[derive(Clone, Copy)]
pub struct Pole {
    pub im: Single,
    pub theta: Single,
    pub ln_magnitude: Single,
}

/// The frequency at which a pole with the given angle resonates.
pub open spec fn pole_frequency(theta: Num, sample_rate: nat) -> Num {
    quot32(prod32(theta, whole32(sample_rate)), prod32(whole32(2), pi32()))
}

/// The bandwidth of the resonance: the closer a pole is to the unit circle, the nearer to
/// zero. It is negative for a pole outside the circle.
pub open spec fn pole_bandwidth(ln_magnitude: Num, sample_rate: nat) -> Num {
    quot32(prod32(ln_magnitude.minus(), whole32(sample_rate)), pi32())
}

/// The frequency below which a formant has to lie: 200 Hz under half the sample rate.
pub open spec fn frequency_ceiling(sample_rate: nat) -> Num {
    diff32(quot32(whole32(sample_rate), whole32(2)), whole32(200))
}

/// Whether a pole counts as a formant: the upper one of a complex pair, at an audible
/// frequency, and close enough to the unit circle on either side.
pub open spec fn is_formant(p: Pole, sample_rate: nat, bandwidth_max: Num) -> bool {
    let frequency = pole_frequency(p.theta@, sample_rate);
    let bandwidth = pole_bandwidth(p.ln_magnitude@, sample_rate);
    &&& zero32().below(p.im@)
    &&& whole32(250).below(frequency)
    &&& frequency.below(frequency_ceiling(sample_rate))
    &&& bandwidth.magnitude().below(bandwidth_max)
}

/// The frequencies of the formants among some poles, in the order of the poles.
pub open spec fn formant_frequencies(
    poles: Seq<Pole>,
    sample_rate: nat,
    bandwidth_max: Num,
) -> Seq<Num>
    decreases poles.len(),
{
    if poles.len() == 0 {
        Seq::empty()
    } else {
        let before = formant_frequencies(poles.drop_last(), sample_rate, bandwidth_max);
        if is_formant(poles.last(), sample_rate, bandwidth_max) {
            before.push(pole_frequency(poles.last().theta@, sample_rate))
        } else {
            before
        }
    }
}

/// Whether no number in a sequence is below an earlier one.
pub open spec fn ascending(s: Seq<Num>) -> bool {
    forall|i: int, j: int| 0 <= i < j < s.len() ==> !(#[trigger] s[j]).below(#[trigger] s[i])
}

/// Whether `sorted` has the same numbers as `s`, ascending.
pub open spec fn is_sorting(sorted: Seq<Num>, s: Seq<Num>) -> bool {
    ascending(sorted) && sorted.to_multiset() == s.to_multiset()
}

/// The first `n` numbers of a sequence, with zeros behind where there are fewer.
pub open spec fn padded(s: Seq<Num>, n: nat) -> Seq<Num> {
    Seq::new(
        n,
        |i: int|
            if i < s.len() {
                s[i]
            } else {
                zero32()
            },
    )
}

/// Whether a buffer holds the formants among some poles: their frequencies are sorted, and
/// the lowest, as many as there is room for, come first; behind them are zeros.
pub open spec fn holds_formants(
    out: Seq<Num>,
    poles: Seq<Pole>,
    sample_rate: nat,
    bandwidth_max: Num,
) -> bool {
    exists|sorted: Seq<Num>|
        {
            &&& #[trigger] is_sorting(
                sorted,
                formant_frequencies(poles, sample_rate, bandwidth_max),
            )
            &&& out == padded(sorted, out.len())
        }
}

/// Puts a number into an ascending list, behind those that are equal to it.
fn insert_ascending(list: &mut Vec<Single>, v: Single)
    requires
        ascending(values(old(list)@)),
        binary32().holds(v@),
        forall|i: int| 0 <= i < old(list)@.len() ==> binary32().holds((#[trigger] old(list)@[i])@),
    ensures
        ascending(values(final(list)@)),
        values(final(list)@).to_multiset() == values(old(list)@).to_multiset().insert(v@),
        final(list)@.len() == old(list)@.len() + 1,
        forall|i: int|
            0 <= i < final(list)@.len() ==> #[trigger] final(list)@[i] == v || old(list)@.contains(
                final(list)@[i],
            ),
        forall|i: int|
            0 <= i < final(list)@.len() ==> binary32().holds((#[trigger] final(list)@[i])@),
{
    let ghost before = list@;
    let ghost s = values(before);
    let mut at: usize = 0;
    while at < list.len() && !v.lt(list[at])
        invariant
            at <= list@.len(),
            list@ == before,
            forall|i: int| 0 <= i < at ==> !v@.below((#[trigger] before[i])@),
        decreases list@.len() - at,
    {
        at = at + 1;
    }
    list.insert(at, v);
    proof {
        assert forall|i: int| 0 <= i < list@.len() implies #[trigger] list@[i] == v
            || before.contains(list@[i]) by {
            if i < at {
                assert(list@[i] == before[i]);
            } else if i > at {
                assert(list@[i] == before[i - 1]);
            }
        }
        let t = values(list@);
        assert(t =~= s.insert(at as int, v@));
        vstd::seq_lib::to_multiset_insert(s, at as int, v@);
        assert forall|i: int, j: int| 0 <= i < j < t.len() implies !(#[trigger] t[j]).below(
            #[trigger] t[i],
        ) by {
            let j0 = if j < at {
                j
            } else {
                j - 1
            };
            if i < at && j > at {
                assert(t[i] == s[i] && t[j] == s[j0]);
            } else if i == at {
                assert(t[j] == s[j0]);
                assert(v@.below(before[at as int]@));
                assert(before[j0]@ == s[j0] && before[at as int]@ == s[at as int]);
                lemma_below_is_strict_order(binary32(), s[j0], v@, s[at as int]);
            } else if j == at {
                assert(t[i] == before[i]@);
            }
        }
    }
}

/// Writes the frequencies of the formants among the poles of a filter into `out_buf`, the
/// lowest first.
pub fn lpc_extract_formants(
    poles: &[Pole],
    out_buf: &mut [Single],
    sample_rate: u32,
    bandwidth_threshold_max: Single,
)
    ensures
        final(out_buf)@.len() == old(out_buf)@.len(),
        holds_formants(
            values(final(out_buf)@),
            poles@,
            sample_rate as nat,
            bandwidth_threshold_max@,
        ),
        forall|i: int|
            0 <= i < final(out_buf)@.len() ==> (#[trigger] final(out_buf)@[i])@ is Finite,
{
    let room: usize = out_buf.len();
    let ghost rate = sample_rate as nat;
    let ghost limit = bandwidth_threshold_max@;
    let rate32: Single = Single::from_whole(sample_rate as u64);
    let half_turn: Single = pi();
    let turn: Single = Single::from_whole(2).mul(half_turn);
    let floor: Single = Single::from_whole(250);
    let ceiling: Single = rate32.div(Single::from_whole(2)).sub(Single::from_whole(200));
    let zero: Single = Single::zero();
    let mut found: Vec<Single> = Vec::new();
    let mut i: usize = 0;
    assert(poles@.take(0) =~= Seq::empty());
    assert(values(found@) =~= Seq::empty());
    while i < poles.len()
        invariant
            i <= poles@.len(),
            rate == sample_rate as nat,
            limit == bandwidth_threshold_max@,
            rate32@ == whole32(rate),
            half_turn@ == pi32(),
            turn@ == prod32(whole32(2), pi32()),
            floor@ == whole32(250),
            ceiling@ == frequency_ceiling(rate),
            zero@ == zero32(),
            ascending(values(found@)),
            forall|k: int| 0 <= k < found@.len() ==> binary32().holds((#[trigger] found@[k])@),
            forall|k: int| 0 <= k < found@.len() ==> (#[trigger] found@[k])@ is Finite,
            values(found@).to_multiset() == formant_frequencies(
                poles@.take(i as int),
                rate,
                limit,
            ).to_multiset(),
        decreases poles@.len() - i,
    {
        let pole: Pole = poles[i];
        let ghost before = formant_frequencies(poles@.take(i as int), rate, limit);
        let ghost after = formant_frequencies(poles@.take(i + 1), rate, limit);
        assert(poles@.take(i + 1).drop_last() =~= poles@.take(i as int));
        assert(poles@.take(i + 1).last() == pole);
        let frequency: Single = pole.theta.mul(rate32).div(turn);
        let bandwidth: Single = pole.ln_magnitude.neg().mul(rate32).div(half_turn).abs();
        if zero.lt(pole.im) && floor.lt(frequency) && frequency.lt(ceiling) && bandwidth.lt(
            bandwidth_threshold_max,
        ) {
            assert(after == before.push(frequency@));
            let ghost earlier = found@;
            insert_ascending(&mut found, frequency);
            proof {
                assert forall|k: int| 0 <= k < found@.len() implies (#[trigger] found@[k])@
                    is Finite by {
                    assert(found@[k] == frequency || earlier.contains(found@[k]));
                }
                vstd::seq_lib::to_multiset_build(before, frequency@);
            }
        }
        i = i + 1;
    }
    assert(poles@.take(i as int) =~= poles@);
    let count: usize = found.len();
    let mut j: usize = 0;
    while j < room
        invariant
            j <= room == out_buf@.len(),
            count == found@.len(),
            zero@ == zero32(),
            forall|k: int| 0 <= k < count ==> (#[trigger] found@[k])@ is Finite,
            forall|k: int| 0 <= k < j && k < count ==> #[trigger] out_buf@[k] == found@[k],
            forall|k: int| count <= k < j ==> (#[trigger] out_buf@[k])@ == zero32(),
        decreases room - j,
    {
        if j < count {
            out_buf[j] = found[j];
        } else {
            out_buf[j] = zero;
        }
        j = j + 1;
    }
    proof {
        let sorted = values(found@);
        assert(is_sorting(sorted, formant_frequencies(poles@, rate, limit)));
        assert(values(out_buf@) =~= padded(sorted, room as nat));
    }
}

/// The formants that a buffer holds are all in the range that formants have, and what is
/// not a formant is zero.
pub proof fn lemma_formants_in_range(
    out: Seq<Num>,
    poles: Seq<Pole>,
    sample_rate: nat,
    bandwidth_max: Num,
    i: int,
)
    requires
        holds_formants(out, poles, sample_rate, bandwidth_max),
        0 <= i < out.len(),
    ensures
        out[i] == zero32() || (whole32(250).below(out[i]) && out[i].below(
            frequency_ceiling(sample_rate),
        )),
{
    let all = formant_frequencies(poles, sample_rate, bandwidth_max);
    let sorted = choose|sorted: Seq<Num>|
        #[trigger] is_sorting(sorted, all) && out == padded(sorted, out.len());
    lemma_frequencies_in_range(poles, sample_rate, bandwidth_max);
    if i < sorted.len() {
        assert(out[i] == sorted[i]);
        lemma_sorting_contains(sorted, all, i);
        let k = choose|k: int| 0 <= k < all.len() && all[k] == sorted[i];
        assert(all[k] == out[i]);
    }
}

/// A sorted sequence has no other numbers than the unsorted one.
pub(crate) proof fn lemma_sorting_contains(sorted: Seq<Num>, s: Seq<Num>, i: int)
    requires
        is_sorting(sorted, s),
        0 <= i < sorted.len(),
    ensures
        s.contains(sorted[i]),
{
    vstd::seq_lib::to_multiset_contains(sorted, sorted[i]);
    vstd::seq_lib::to_multiset_contains(s, sorted[i]);
    assert(sorted.contains(sorted[i]));
}

/// The front of a buffer of formants is a smaller buffer of formants.
pub proof fn lemma_fewer_formants(
    out: Seq<Num>,
    poles: Seq<Pole>,
    sample_rate: nat,
    bandwidth_max: Num,
    n: nat,
)
    requires
        holds_formants(out, poles, sample_rate, bandwidth_max),
        n <= out.len(),
    ensures
        holds_formants(out.take(n as int), poles, sample_rate, bandwidth_max),
{
    let all = formant_frequencies(poles, sample_rate, bandwidth_max);
    let sorted = choose|sorted: Seq<Num>|
        #[trigger] is_sorting(sorted, all) && out == padded(sorted, out.len());
    assert(out.take(n as int) =~= padded(sorted, n));
}

/// A pole that counts has its frequency among those of the formants.
pub(crate) proof fn lemma_formant_has_frequency(
    poles: Seq<Pole>,
    sample_rate: nat,
    bandwidth_max: Num,
    i: int,
)
    requires
        0 <= i < poles.len(),
        is_formant(poles[i], sample_rate, bandwidth_max),
    ensures
        formant_frequencies(poles, sample_rate, bandwidth_max).contains(
            pole_frequency(poles[i].theta@, sample_rate),
        ),
        formant_frequencies(poles, sample_rate, bandwidth_max).len() <= poles.len(),
    decreases poles.len(),
{
    let all = formant_frequencies(poles, sample_rate, bandwidth_max);
    let front = poles.drop_last();
    let before = formant_frequencies(front, sample_rate, bandwidth_max);
    let v = pole_frequency(poles[i].theta@, sample_rate);
    lemma_no_more_formants_than_poles(front, sample_rate, bandwidth_max);
    if i < front.len() {
        lemma_formant_has_frequency(front, sample_rate, bandwidth_max, i);
        let k = choose|k: int| 0 <= k < before.len() && before[k] == v;
        assert(all[k] == v);
    } else {
        assert(all[all.len() - 1] == v);
    }
}

proof fn lemma_no_more_formants_than_poles(
    poles: Seq<Pole>,
    sample_rate: nat,
    bandwidth_max: Num,
)
    ensures
        formant_frequencies(poles, sample_rate, bandwidth_max).len() <= poles.len(),
    decreases poles.len(),
{
    if poles.len() > 0 {
        lemma_no_more_formants_than_poles(poles.drop_last(), sample_rate, bandwidth_max);
    }
}

/// Each of the formants' frequencies is that of a pole that counts.
pub(crate) proof fn lemma_frequency_has_pole(
    poles: Seq<Pole>,
    sample_rate: nat,
    bandwidth_max: Num,
    k: int,
)
    requires
        0 <= k < formant_frequencies(poles, sample_rate, bandwidth_max).len(),
    ensures
        exists|i: int|
            0 <= i < poles.len() && is_formant(#[trigger] poles[i], sample_rate, bandwidth_max)
                && formant_frequencies(poles, sample_rate, bandwidth_max)[k] == pole_frequency(
                poles[i].theta@,
                sample_rate,
            ),
    decreases poles.len(),
{
    let front = poles.drop_last();
    let before = formant_frequencies(front, sample_rate, bandwidth_max);
    if k < before.len() {
        lemma_frequency_has_pole(front, sample_rate, bandwidth_max, k);
        let i = choose|i: int|
            0 <= i < front.len() && is_formant(#[trigger] front[i], sample_rate, bandwidth_max)
                && before[k] == pole_frequency(front[i].theta@, sample_rate);
        assert(poles[i] == front[i]);
    } else {
        assert(poles[poles.len() - 1] == poles.last());
    }
}

/// Where there is no room for every formant, the lowest are kept: no frequency that is left
/// out is below one that is not.
pub proof fn lemma_formants_are_lowest(
    out: Seq<Num>,
    poles: Seq<Pole>,
    sample_rate: nat,
    bandwidth_max: Num,
)
    requires
        holds_formants(out, poles, sample_rate, bandwidth_max),
    ensures
        ({
            let all = formant_frequencies(poles, sample_rate, bandwidth_max);
            let n = if all.len() < out.len() {
                all.len() as int
            } else {
                out.len() as int
            };
            &&& ascending(out.take(n))
            &&& forall|i: int| n <= i < out.len() ==> #[trigger] out[i] == zero32()
            &&& exists|rest: Seq<Num>|
                {
                    &&& all.to_multiset() == out.take(n).to_multiset().add(
                        #[trigger] rest.to_multiset(),
                    )
                    &&& forall|i: int, j: int|
                        0 <= i < n && 0 <= j < rest.len() ==> !(#[trigger] rest[j]).below(
                            #[trigger] out[i],
                        )
                }
        }),
{
    let all = formant_frequencies(poles, sample_rate, bandwidth_max);
    let sorted = choose|sorted: Seq<Num>|
        #[trigger] is_sorting(sorted, all) && out == padded(sorted, out.len());
    vstd::seq_lib::to_multiset_len(sorted);
    vstd::seq_lib::to_multiset_len(all);
    let n = if all.len() < out.len() {
        all.len() as int
    } else {
        out.len() as int
    };
    let rest = sorted.skip(n);
    assert(out.take(n) =~= sorted.take(n));
    vstd::seq_lib::lemma_multiset_commutative(sorted.take(n), rest);
    assert(sorted.take(n) + rest =~= sorted);
    assert(all.to_multiset() == out.take(n).to_multiset().add(rest.to_multiset()));
    assert forall|i: int, j: int| 0 <= i < n && 0 <= j < rest.len() implies !(
    #[trigger] rest[j]).below(#[trigger] out[i]) by {
        assert(rest[j] == sorted[n + j] && out[i] == sorted[i]);
    }
}

proof fn lemma_frequencies_in_range(poles: Seq<Pole>, sample_rate: nat, bandwidth_max: Num)
    ensures
        forall|k: int|
            0 <= k < formant_frequencies(poles, sample_rate, bandwidth_max).len() ==> {
                let v = #[trigger] formant_frequencies(poles, sample_rate, bandwidth_max)[k];
                whole32(250).below(v) && v.below(frequency_ceiling(sample_rate))
            },
    decreases poles.len(),
{
    if poles.len() > 0 {
        lemma_frequencies_in_range(poles.drop_last(), sample_rate, bandwidth_max);
    }
}

/// Two ascending sequences of the same numbers are the same, if no two different numbers
/// among them are equally large.
proof fn lemma_ascending_unique(a: Seq<Num>, b: Seq<Num>)
    requires
        ascending(a),
        ascending(b),
        a.to_multiset() == b.to_multiset(),
        forall|i: int, j: int|
            0 <= i < a.len() && 0 <= j < a.len() && !a[i].below(a[j]) && !a[j].below(a[i])
                ==> #[trigger] a[i] == #[trigger] a[j],
    ensures
        a == b,
    decreases a.len(),
{
    vstd::seq_lib::to_multiset_len(a);
    vstd::seq_lib::to_multiset_len(b);
    if a.len() > 0 {
        let n = a.len() - 1;
        let x = a[n];
        let y = b[n];
        vstd::seq_lib::to_multiset_contains(a, y);
        vstd::seq_lib::to_multiset_contains(b, y);
        vstd::seq_lib::to_multiset_contains(a, x);
        vstd::seq_lib::to_multiset_contains(b, x);
        assert(a.contains(x) && b.contains(y));
        assert(a.contains(y) && b.contains(x));
        let i = choose|i: int| 0 <= i < a.len() && a[i] == y;
        let j = choose|j: int| 0 <= j < b.len() && b[j] == x;
        // each is the last of its sequence, so neither is below the other
        if i < n && j < n {
            assert(!a[n].below(a[i]));
            assert(!b[n].below(b[j]));
        }
        assert(x == y);
        vstd::seq_lib::to_multiset_remove(a, n);
        vstd::seq_lib::to_multiset_remove(b, n);
        assert(a.remove(n) =~= a.drop_last());
        assert(b.remove(n) =~= b.drop_last());
        lemma_ascending_unique(a.drop_last(), b.drop_last());
        assert(a =~= a.drop_last().push(x));
        assert(b =~= b.drop_last().push(y));
    } else {
        assert(a =~= b);
    }
}

/// There is only one buffer of a length that holds the formants among some poles.
pub proof fn lemma_formants_unique(
    a: Seq<Num>,
    b: Seq<Num>,
    poles: Seq<Pole>,
    sample_rate: nat,
    bandwidth_max: Num,
)
    requires
        a.len() == b.len(),
        holds_formants(a, poles, sample_rate, bandwidth_max),
        holds_formants(b, poles, sample_rate, bandwidth_max),
    ensures
        a == b,
{
    let all = formant_frequencies(poles, sample_rate, bandwidth_max);
    let s = choose|sorted: Seq<Num>|
        #[trigger] is_sorting(sorted, all) && a == padded(sorted, a.len());
    let t = choose|sorted: Seq<Num>|
        #[trigger] is_sorting(sorted, all) && b == padded(sorted, b.len());
    lemma_frequencies_hold(poles, sample_rate, bandwidth_max);
    lemma_frequencies_in_range(poles, sample_rate, bandwidth_max);
    vstd::arithmetic::power2::lemma2_to64();
    lemma_whole_exact(binary32(), 0);
    lemma_whole_exact(binary32(), 250);
    lemma_whole_order(binary32(), 0, 250);
    assert(whole32(0) == zero32());
    assert forall|i: int, j: int|
        0 <= i < s.len() && 0 <= j < s.len() && !s[i].below(s[j]) && !s[j].below(
            s[i],
        ) implies #[trigger] s[i] == #[trigger] s[j] by {
        lemma_sorting_contains(s, all, i);
        lemma_sorting_contains(s, all, j);
        let k = choose|k: int| 0 <= k < all.len() && all[k] == s[i];
        let l = choose|l: int| 0 <= l < all.len() && all[l] == s[j];
        assert(all[k] == s[i] && all[l] == s[j]);
        lemma_below_is_strict_order(binary32(), zero32(), whole32(250), all[k]);
        lemma_below_is_strict_order(binary32(), zero32(), whole32(250), all[l]);
        lemma_positive_equal(binary32(), all[k], all[l]);
    }
    lemma_ascending_unique(s, t);
}

proof fn lemma_frequencies_hold(poles: Seq<Pole>, sample_rate: nat, bandwidth_max: Num)
    ensures
        forall|k: int|
            0 <= k < formant_frequencies(poles, sample_rate, bandwidth_max).len()
                ==> binary32().holds(
                #[trigger] formant_frequencies(poles, sample_rate, bandwidth_max)[k],
            ),
    decreases poles.len(),
{
    if poles.len() > 0 {
        lemma_frequencies_hold(poles.drop_last(), sample_rate, bandwidth_max);
        lemma_over_holds(
            binary32(),
            prod32(poles.last().theta@, whole32(sample_rate)),
            prod32(whole32(2), pi32()),
        );
        let before = formant_frequencies(poles.drop_last(), sample_rate, bandwidth_max);
        let all = formant_frequencies(poles, sample_rate, bandwidth_max);
        assert forall|k: int| 0 <= k < all.len() implies binary32().holds(
            #[trigger] all[k],
        ) by {
            if k < before.len() {
                assert(all[k] == before[k]);
            } else {
                assert(all[k] == pole_frequency(poles.last().theta@, sample_rate));
            }
        }
    }
}

} // verus!
