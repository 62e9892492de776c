//! Keeping the formants of successive frames in stable slots.

use crate::float::{values, Single};
use crate::number::{binary32, diff32, whole32, zero32, Num};
use crate::laws::lemma_whole_exact;
use crate::order::{
    lemma_below_is_rank_order, lemma_below_is_strict_order, lemma_order_by_digits,
};
use crate::rounding::lemma_plus_holds;
use vstd::prelude::*;

verus! {

/// The ranges in Hz, from the first to before the second, in which the formants F1 to F4
/// usually lie. They place a formant where there is no earlier one to go by.
pub const FORMANT_SEED_RANGES: [(u32, u32); 4] = [
    (250, 950),
    (950, 2500),
    (2500, 3500),
    (3500, 4500),
];

/// The largest distance in Hz over which a formant is taken for the one before it.
pub const MAX_CONTINUITY_JUMP_HZ: u32 = 400;

/// Whether a value is above zero, which tells a formant from a gap.
pub open spec fn is_present(v: Num) -> bool {
    zero32().below(v)
}

/// The formants among the raw values.
pub open spec fn candidates_of(raw: Seq<Num>) -> Seq<Num> {
    raw.filter(|v: Num| is_present(v))
}

/// Whether a slot has an earlier formant to go by.
pub open spec fn is_anchored(confirmed: Num) -> bool {
    !confirmed.at_most(zero32())
}

/// How far a formant is from an earlier one.
pub open spec fn distance(candidate: Num, confirmed: Num) -> Num {
    diff32(candidate, confirmed).magnitude()
}

/// Whether a formant may continue an earlier one.
pub open spec fn is_close(candidate: Num, confirmed: Num) -> bool {
    !whole32(MAX_CONTINUITY_JUMP_HZ as nat).below(distance(candidate, confirmed))
}

/// Whether a formant lies in the usual range of a slot.
pub open spec fn in_seed_range(slot: int, candidate: Num) -> bool {
    let range = FORMANT_SEED_RANGES@[slot];
    whole32(range.0 as nat).at_most(candidate) && candidate.below(whole32(range.1 as nat))
}

/// Which candidate each slot has taken, if any, as an index.
pub type Placement = Seq<Option<int>>;

/// Whether no slot has taken the candidate.
pub open spec fn is_unclaimed(p: Placement, ci: int) -> bool {
    !p.contains(Some(ci))
}

/// Whether a slot and a candidate may still be matched by continuity.
pub open spec fn is_available(
    p: Placement,
    candidates: Seq<Num>,
    confirmed: Seq<Num>,
    slot: int,
    ci: int,
) -> bool {
    &&& 0 <= slot < 4
    &&& 0 <= ci < candidates.len()
    &&& p[slot] is None
    &&& is_unclaimed(p, ci)
    &&& is_anchored(confirmed[slot])
    &&& is_close(candidates[ci], confirmed[slot])
}

/// Whether a slot and a candidate are the match to make next: no other available pair is
/// nearer, and of those equally near it is the one with the first slot, then the first
/// candidate.
pub open spec fn is_nearest(
    p: Placement,
    candidates: Seq<Num>,
    confirmed: Seq<Num>,
    slot: int,
    ci: int,
) -> bool {
    let d = distance(candidates[ci], confirmed[slot]);
    &&& is_available(p, candidates, confirmed, slot, ci)
    &&& forall|s: int, c: int| #[trigger]
        is_available(p, candidates, confirmed, s, c) ==> {
            let e = distance(candidates[c], confirmed[s]);
            &&& !e.below(d)
            &&& d.below(e) || slot < s || (slot == s && ci <= c)
        }
}

/// Greedy matching by continuity: the nearest available pair is matched, then the nearest
/// of those still available, for as many rounds as given.
pub open spec fn continued(
    p: Placement,
    candidates: Seq<Num>,
    confirmed: Seq<Num>,
    rounds: nat,
) -> Placement
    decreases rounds,
{
    if rounds == 0 || !exists|s: int, c: int| is_nearest(p, candidates, confirmed, s, c) {
        p
    } else {
        let (slot, ci) = choose|s: int, c: int| is_nearest(p, candidates, confirmed, s, c);
        continued(p.update(slot, Some(ci)), candidates, confirmed, (rounds - 1) as nat)
    }
}

/// The first free slot from `slot` on in whose usual range a candidate lies.
pub open spec fn seed_slot(p: Placement, candidate: Num, slot: nat) -> Option<int>
    decreases 4 - slot,
{
    if slot >= 4 {
        None
    } else if p[slot as int] is None && in_seed_range(slot as int, candidate) {
        Some(slot as int)
    } else {
        seed_slot(p, candidate, slot + 1)
    }
}

/// Seeding: each of the first `end` candidates that is still unclaimed goes to the first
/// free slot in whose usual range it lies.
pub open spec fn seeded(p: Placement, candidates: Seq<Num>, end: nat) -> Placement
    decreases end,
{
    if end == 0 {
        p
    } else {
        let ci = end - 1;
        let before = seeded(p, candidates, ci as nat);
        if is_unclaimed(before, ci) {
            match seed_slot(before, candidates[ci], 0) {
                Some(slot) => before.update(slot, Some(ci)),
                None => before,
            }
        } else {
            before
        }
    }
}

/// The placement in which no slot has taken anything.
pub open spec fn no_placement() -> Placement {
    seq![None, None, None, None]
}

/// Where the formants of a frame go: first by continuity, then by seeding.
pub open spec fn placement(raw: Seq<Num>, confirmed: Seq<Num>) -> Placement {
    let candidates = candidates_of(raw);
    seeded(continued(no_placement(), candidates, confirmed, 4), candidates, candidates.len())
}

/// The values that a placement puts into the slots, with zero where there is none.
pub open spec fn placed(p: Placement, candidates: Seq<Num>) -> Seq<Num> {
    Seq::new(
        p.len(),
        |slot: int|
            match p[slot] {
                Some(ci) => candidates[ci],
                None => zero32(),
            },
    )
}

/// The formants of a frame in their slots.
pub open spec fn assignment(raw: Seq<Num>, confirmed: Seq<Num>) -> Seq<Num> {
    placed(placement(raw, confirmed), candidates_of(raw))
}

/// Whether the distances can be put in order: where there is more than one pair of an
/// earlier formant and a candidate, every distance is a number.
pub open spec fn are_comparable(candidates: Seq<Num>, confirmed: Seq<Num>) -> bool {
    forall|s: int, c: int, t: int, d: int|
        #![trigger distance(candidates[c], confirmed[s]), distance(candidates[d], confirmed[t])]
        0 <= s < 4 && 0 <= t < 4 && 0 <= c < candidates.len() && 0 <= d < candidates.len() && (s
            != t || c != d) && is_anchored(confirmed[s]) && is_anchored(confirmed[t])
            ==> distance(candidates[c], confirmed[s]) !is Nan
}

/// The placement that the slots' indices stand for.
spec fn placement_of(source: Seq<Option<usize>>) -> Placement {
    source.map_values(
        |o: Option<usize>|
            match o {
                Some(ci) => Some(ci as int),
                None => None::<int>,
            },
    )
}

/// What the slots and the claims hold while formants are being placed.
spec fn in_step(source: Seq<Option<usize>>, claimed: Seq<bool>) -> bool {
    &&& source.len() == 4
    &&& forall|ci: int|
        0 <= ci < claimed.len() ==> (#[trigger] claimed[ci] <==> !is_unclaimed(
            placement_of(source),
            ci,
        ))
    &&& forall|slot: int|
        0 <= slot < 4 ==> ((#[trigger] source[slot]) matches Some(ci) ==> ci < claimed.len())
}

/// Taking a candidate keeps slots and claims in step.
proof fn lemma_claim_in_step(
    source: Seq<Option<usize>>,
    claimed: Seq<bool>,
    slot: int,
    ci: usize,
)
    requires
        in_step(source, claimed),
        0 <= slot < 4,
        ci < claimed.len(),
        source[slot] is None,
    ensures
        in_step(source.update(slot, Some(ci)), claimed.update(ci as int, true)),
        placement_of(source.update(slot, Some(ci))) == placement_of(source).update(
            slot,
            Some(ci as int),
        ),
{
    let p = placement_of(source);
    let q = placement_of(source.update(slot, Some(ci)));
    assert(q =~= p.update(slot, Some(ci as int)));
    assert forall|c: int| 0 <= c < claimed.len() implies (#[trigger] claimed.update(
        ci as int,
        true,
    )[c] <==> !is_unclaimed(q, c)) by {
        if c == ci {
            assert(q[slot] == Some(c));
        } else if claimed[c] {
            assert(p.contains(Some(c)));
            let s = choose|s: int| 0 <= s < p.len() && p[s] == Some(c);
            assert(q[s] == Some(c));
        } else if q.contains(Some(c)) {
            let s = choose|s: int| 0 <= s < q.len() && q[s] == Some(c);
            assert(p[s] == Some(c));
        }
    }
}

/// At most one pair is the match to make next.
proof fn lemma_nearest_unique(
    p: Placement,
    candidates: Seq<Num>,
    confirmed: Seq<Num>,
    slot: int,
    ci: int,
)
    requires
        is_nearest(p, candidates, confirmed, slot, ci),
    ensures
        (choose|s: int, c: int| is_nearest(p, candidates, confirmed, s, c)) == (slot, ci),
{
    let (s, c) = choose|s: int, c: int| is_nearest(p, candidates, confirmed, s, c);
    assert(is_nearest(p, candidates, confirmed, s, c));
    assert(is_available(p, candidates, confirmed, s, c));
    assert(is_available(p, candidates, confirmed, slot, ci));
}

/// Whether a pair comes before another, by slot and then by candidate.
spec fn comes_before(s: int, c: int, slot: int, ci: int) -> bool {
    s < slot || (s == slot && c < ci)
}

/// Whether a pair is the best of those that come before (`slot`, `ci`).
spec fn is_best_before(
    p: Placement,
    candidates: Seq<Num>,
    confirmed: Seq<Num>,
    best: Option<(usize, usize)>,
    slot: int,
    ci: int,
) -> bool {
    match best {
        None => forall|s: int, c: int|
            comes_before(s, c, slot, ci) ==> !#[trigger] is_available(
                p,
                candidates,
                confirmed,
                s,
                c,
            ),
        Some((bs, bc)) => {
            let d = distance(candidates[bc as int], confirmed[bs as int]);
            &&& is_available(p, candidates, confirmed, bs as int, bc as int)
            &&& comes_before(bs as int, bc as int, slot, ci)
            &&& forall|s: int, c: int| #[trigger]
                is_available(p, candidates, confirmed, s, c) && comes_before(s, c, slot, ci)
                    ==> {
                    let e = distance(candidates[c], confirmed[s]);
                    &&& !e.below(d)
                    &&& d.below(e) || bs < s || (bs == s && bc <= c)
                }
        },
    }
}

/// Whether every number of a sequence is a 32-bit one.
pub open spec fn all_hold(s: Seq<Num>) -> bool {
    forall|i: int| 0 <= i < s.len() ==> binary32().holds(#[trigger] s[i])
}

/// The match to make next, if there is one.
fn nearest_pair(
    source: &[Option<usize>; 4],
    claimed: &Vec<bool>,
    anchored: &[bool; 4],
    candidates: &Vec<Single>,
    last_confirmed: &[Single; 4],
) -> (best: Option<(usize, usize)>)
    requires
        in_step(source@, claimed@),
        claimed@.len() == candidates@.len(),
        forall|i: int|
            0 <= i < 4 ==> #[trigger] anchored@[i] == is_anchored(last_confirmed@[i]@),
        are_comparable(values(candidates@), values(last_confirmed@)),
        all_hold(values(candidates@)),
        all_hold(values(last_confirmed@)),
    ensures
        match best {
            Some((slot, ci)) => is_nearest(
                placement_of(source@),
                values(candidates@),
                values(last_confirmed@),
                slot as int,
                ci as int,
            ),
            None => forall|s: int, c: int|
                !#[trigger] is_available(
                    placement_of(source@),
                    values(candidates@),
                    values(last_confirmed@),
                    s,
                    c,
                ),
        },
{
    let ghost p = placement_of(source@);
    let ghost cs = values(candidates@);
    let ghost conf = values(last_confirmed@);
    let n: usize = candidates.len();
    let jump: Single = Single::from_whole(MAX_CONTINUITY_JUMP_HZ as u64);
    let mut best: Option<(usize, usize)> = None;
    let mut nearest: Single = jump;
    let mut slot: usize = 0;
    while slot < 4
        invariant
            slot <= 4,
            in_step(source@, claimed@),
            n == claimed@.len() == candidates@.len(),
            p == placement_of(source@),
            cs == values(candidates@),
            conf == values(last_confirmed@),
            forall|i: int| 0 <= i < 4 ==> #[trigger] anchored@[i] == is_anchored(conf[i]),
            jump@ == whole32(MAX_CONTINUITY_JUMP_HZ as nat),
            are_comparable(cs, conf),
            all_hold(cs),
            all_hold(conf),
            is_best_before(p, cs, conf, best, slot as int, 0),
            best matches Some((bs, bc)) ==> nearest@ == distance(cs[bc as int], conf[bs as int]),
        decreases 4 - slot,
    {
        let free: bool = source[slot].is_none();
        let mut ci: usize = 0;
        while ci < n
            invariant
                slot < 4,
                ci <= n,
                in_step(source@, claimed@),
                n == claimed@.len() == candidates@.len(),
                p == placement_of(source@),
                cs == values(candidates@),
                conf == values(last_confirmed@),
                anchored@[slot as int] == is_anchored(conf[slot as int]),
                free == (p[slot as int] is None),
                jump@ == whole32(MAX_CONTINUITY_JUMP_HZ as nat),
                are_comparable(cs, conf),
                all_hold(cs),
                all_hold(conf),
                is_best_before(p, cs, conf, best, slot as int, ci as int),
                best matches Some((bs, bc)) ==> nearest@ == distance(
                    cs[bc as int],
                    conf[bs as int],
                ),
            decreases n - ci,
        {
            let ghost before = best;
            if free && anchored[slot] && !claimed[ci] {
                let dist: Single = candidates[ci].sub(last_confirmed[slot]).abs();
                assert(dist@ == distance(cs[ci as int], conf[slot as int]));
                if !jump.lt(dist) {
                    assert(is_available(p, cs, conf, slot as int, ci as int));
                    match best {
                        None => {
                            best = Some((slot, ci));
                            nearest = dist;
                        },
                        Some((bs, bc)) => {
                            if dist.lt(nearest) {
                                proof {
                                    lemma_better_pair(
                                        p,
                                        cs,
                                        conf,
                                        (bs, bc),
                                        slot,
                                        ci,
                                    );
                                }
                                best = Some((slot, ci));
                                nearest = dist;
                            }
                        },
                    }
                }
            }
            assert(is_best_before(p, cs, conf, best, slot as int, ci + 1));
            ci = ci + 1;
        }
        slot = slot + 1;
    }
    best
}


/// A nearer pair that comes later takes the place of the best so far.
proof fn lemma_better_pair(
    p: Placement,
    candidates: Seq<Num>,
    confirmed: Seq<Num>,
    best: (usize, usize),
    slot: usize,
    ci: usize,
)
    requires
        is_best_before(p, candidates, confirmed, Some(best), slot as int, ci as int),
        is_available(p, candidates, confirmed, slot as int, ci as int),
        distance(candidates[ci as int], confirmed[slot as int]).below(
            distance(candidates[best.1 as int], confirmed[best.0 as int]),
        ),
        are_comparable(candidates, confirmed),
        all_hold(candidates),
        confirmed.len() == 4,
        all_hold(confirmed),
    ensures
        is_best_before(p, candidates, confirmed, Some((slot, ci)), slot as int, ci + 1),
{
    let e = distance(candidates[ci as int], confirmed[slot as int]);
    let d = distance(candidates[best.1 as int], confirmed[best.0 as int]);
    lemma_plus_holds(binary32(), candidates[ci as int], confirmed[slot as int].minus());
    lemma_plus_holds(binary32(), candidates[best.1 as int], confirmed[best.0 as int].minus());
    lemma_below_is_strict_order(binary32(), e, e, e);
    assert forall|s: int, c: int| #[trigger]
        is_available(p, candidates, confirmed, s, c) && comes_before(
            s,
            c,
            slot as int,
            ci + 1,
        ) implies {
        let g = distance(candidates[c], confirmed[s]);
        &&& !g.below(e)
        &&& e.below(g) || slot < s || (slot == s && ci <= c)
    } by {
        let g = distance(candidates[c], confirmed[s]);
        if s != slot || c != ci {
            assert(comes_before(s, c, slot as int, ci as int));
            lemma_plus_holds(binary32(), candidates[c], confirmed[s].minus());
            lemma_below_is_strict_order(binary32(), g, e, d);
            lemma_below_is_strict_order(binary32(), e, g, d);
            lemma_below_is_strict_order(binary32(), e, d, g);
            lemma_below_is_strict_order(binary32(), d, g, e);
        }
    }
}

/// The first free slot in whose usual range a candidate lies.
fn find_seed_slot(source: &[Option<usize>; 4], candidate: Single) -> (r: Option<usize>)
    ensures
        match r {
            Some(slot) => slot < 4 && seed_slot(placement_of(source@), candidate@, 0) == Some(
                slot as int,
            ),
            None => seed_slot(placement_of(source@), candidate@, 0) is None,
        },
        r matches Some(slot) ==> source@[slot as int] is None,
{
    let ghost p = placement_of(source@);
    let mut slot: usize = 0;
    while slot < 4
        invariant
            slot <= 4,
            p == placement_of(source@),
            seed_slot(p, candidate@, 0) == seed_slot(p, candidate@, slot as nat),
        decreases 4 - slot,
    {
        let range: (u32, u32) = FORMANT_SEED_RANGES[slot];
        let low: Single = Single::from_whole(range.0 as u64);
        let high: Single = Single::from_whole(range.1 as u64);
        if source[slot].is_none() && low.le(candidate) && candidate.lt(high) {
            return Some(slot);
        }
        slot = slot + 1;
    }
    None
}

/// The candidates among the raw values.
fn find_candidates(raw: &[Single; 4]) -> (candidates: Vec<Single>)
    ensures
        values(candidates@) == candidates_of(values(raw@)),
        all_hold(values(candidates@)),
        candidates@.len() <= 4,
{
    let ghost v = values(raw@);
    let zero: Single = Single::zero();
    let mut candidates: Vec<Single> = Vec::new();
    let mut i: usize = 0;
    proof {
        assert(v.take(0) =~= Seq::empty());
        reveal(Seq::filter);
        assert(values(candidates@) =~= candidates_of(v.take(0)));
    }
    while i < 4
        invariant
            i <= 4,
            v == values(raw@),
            zero@ == zero32(),
            candidates@.len() <= i,
            values(candidates@) == candidates_of(v.take(i as int)),
            all_hold(values(candidates@)),
        decreases 4 - i,
    {
        let ghost before = candidates@;
        if zero.lt(raw[i]) {
            candidates.push(raw[i]);
        }
        proof {
            reveal(Seq::filter);
            assert(v.take(i + 1).drop_last() =~= v.take(i as int));
            assert(v.take(i + 1).last() == raw@[i as int]@);
            if is_present(raw@[i as int]@) {
                assert(values(candidates@) =~= values(before).push(raw@[i as int]@));
            }
        }
        i = i + 1;
    }
    assert(v.take(4) =~= v);
    candidates
}

/// Puts the raw formants of a frame, zero where there is none, into the slots F1 to F4.
/// A slot that had a formant before takes the closest candidate; a candidate that no slot
/// has taken so is placed by the range in which it lies.
pub fn assign_formants(raw: &[Single; 4], last_confirmed: &[Single; 4]) -> (r: [Single; 4])
    requires
        are_comparable(candidates_of(values(raw@)), values(last_confirmed@)),
    ensures
        values(r@) == assignment(values(raw@), values(last_confirmed@)),
{
    let ghost conf = values(last_confirmed@);
    let candidates: Vec<Single> = find_candidates(raw);
    let ghost cs = values(candidates@);
    let n: usize = candidates.len();
    let zero: Single = Single::zero();
    let mut i: usize = 0;
    let mut claimed: Vec<bool> = Vec::new();
    while i < n
        invariant
            i <= n,
            claimed@.len() == i,
            forall|k: int| 0 <= k < i ==> !#[trigger] claimed@[k],
        decreases n - i,
    {
        claimed.push(false);
        i = i + 1;
    }
    let mut source: [Option<usize>; 4] = [None, None, None, None];
    let anchored: [bool; 4] = [
        !last_confirmed[0].le(zero),
        !last_confirmed[1].le(zero),
        !last_confirmed[2].le(zero),
        !last_confirmed[3].le(zero),
    ];
    proof {
        assert(conf[0] == last_confirmed@[0]@ && conf[1] == last_confirmed@[1]@);
        assert(conf[2] == last_confirmed@[2]@ && conf[3] == last_confirmed@[3]@);
        assert(all_hold(conf));
        assert(placement_of(source@) =~= no_placement());
        assert forall|ci: int| 0 <= ci < n implies is_unclaimed(no_placement(), ci) by {}
    }
    let ghost goal = continued(no_placement(), cs, conf, 4);
    let mut rounds: usize = 4;
    while rounds > 0
        invariant
            rounds <= 4,
            n == candidates@.len() == claimed@.len(),
            cs == values(candidates@),
            conf == values(last_confirmed@),
            are_comparable(cs, conf),
            all_hold(cs),
            all_hold(conf),
            in_step(source@, claimed@),
            forall|i: int| 0 <= i < 4 ==> #[trigger] anchored@[i] == is_anchored(conf[i]),
            goal == continued(placement_of(source@), cs, conf, rounds as nat),
        decreases rounds,
    {
        match nearest_pair(&source, &claimed, &anchored, &candidates, last_confirmed) {
            Some((slot, ci)) => {
                proof {
                    let p = placement_of(source@);
                    lemma_nearest_unique(p, cs, conf, slot as int, ci as int);
                    lemma_claim_in_step(source@, claimed@, slot as int, ci);
                }
                source[slot] = Some(ci);
                claimed[ci] = true;
                rounds = rounds - 1;
            },
            None => {
                rounds = 0;
            },
        }
    }
    assert(goal == placement_of(source@));
    let mut c: usize = 0;
    while c < n
        invariant
            c <= n,
            n == candidates@.len() == claimed@.len(),
            cs == values(candidates@),
            in_step(source@, claimed@),
            placement_of(source@) == seeded(goal, cs, c as nat),
        decreases n - c,
    {
        if !claimed[c] {
            match find_seed_slot(&source, candidates[c]) {
                Some(slot) => {
                    proof {
                        lemma_claim_in_step(source@, claimed@, slot as int, c);
                    }
                    source[slot] = Some(c);
                    claimed[c] = true;
                },
                None => {},
            }
        }
        c = c + 1;
    }
    let mut assigned: [Single; 4] = [zero; 4];
    let mut slot: usize = 0;
    while slot < 4
        invariant
            slot <= 4,
            n == candidates@.len() == claimed@.len(),
            cs == values(candidates@),
            in_step(source@, claimed@),
            zero@ == zero32(),
            forall|s: int|
                0 <= s < slot ==> (#[trigger] assigned@[s])@ == placed(
                    placement_of(source@),
                    cs,
                )[s],
            forall|s: int| slot <= s < 4 ==> (#[trigger] assigned@[s])@ == zero32(),
        decreases 4 - slot,
    {
        if let Some(ci) = source[slot] {
            assigned[slot] = candidates[ci];
        }
        slot = slot + 1;
    }
    assert(values(assigned@) =~= placed(placement_of(source@), cs));
    assigned
}

/// Whether what the slots have taken is in order: each slot has a candidate that is close
/// to its earlier formant or lies in its usual range, and no two slots have the same.
pub open spec fn is_sound(p: Placement, candidates: Seq<Num>, confirmed: Seq<Num>) -> bool {
    &&& p.len() == 4
    &&& forall|slot: int|
        0 <= slot < 4 ==> ((#[trigger] p[slot]) matches Some(ci) ==> {
            &&& 0 <= ci < candidates.len()
            &&& (is_anchored(confirmed[slot]) && is_close(candidates[ci], confirmed[slot]))
                || in_seed_range(slot, candidates[ci])
        })
    &&& forall|s: int, t: int|
        0 <= s < t < 4 && (#[trigger] p[s]) is Some ==> p[s] != #[trigger] p[t]
}

proof fn lemma_continued_sound(
    p: Placement,
    candidates: Seq<Num>,
    confirmed: Seq<Num>,
    rounds: nat,
)
    requires
        is_sound(p, candidates, confirmed),
    ensures
        is_sound(continued(p, candidates, confirmed, rounds), candidates, confirmed),
    decreases rounds,
{
    if rounds > 0 && exists|s: int, c: int| is_nearest(p, candidates, confirmed, s, c) {
        let (slot, ci) = choose|s: int, c: int| is_nearest(p, candidates, confirmed, s, c);
        assert(is_available(p, candidates, confirmed, slot, ci));
        let q = p.update(slot, Some(ci));
        assert forall|s: int, t: int| 0 <= s < t < 4 && (#[trigger] q[s]) is Some implies q[s]
            != #[trigger] q[t] by {
            assert(p[s] == Some(ci) ==> p.contains(Some(ci)));
            assert(p[t] == Some(ci) ==> p.contains(Some(ci)));
        }
        lemma_continued_sound(q, candidates, confirmed, (rounds - 1) as nat);
    }
}

/// What `seed_slot` finds is a free slot with the right range, and where it finds none
/// there is none.
pub(crate) proof fn lemma_seed_slot(p: Placement, candidate: Num, slot: nat)
    ensures
        match seed_slot(p, candidate, slot) {
            Some(s) => slot <= s < 4 && p[s] is None && in_seed_range(s, candidate),
            None => forall|s: int|
                slot <= s < 4 && p[s] is None ==> !#[trigger] in_seed_range(s, candidate),
        },
    decreases 4 - slot,
{
    if slot < 4 {
        lemma_seed_slot(p, candidate, slot + 1);
    }
}

/// A slot that has taken a candidate keeps it while more are seeded.
pub(crate) proof fn lemma_seeded_keeps(p: Placement, candidates: Seq<Num>, end: nat)
    requires
        p.len() == 4,
    ensures
        seeded(p, candidates, end).len() == 4,
        forall|slot: int|
            0 <= slot < 4 && (#[trigger] p[slot]) is Some ==> seeded(p, candidates, end)[slot]
                == p[slot],
    decreases end,
{
    if end > 0 {
        let ci = end - 1;
        lemma_seeded_keeps(p, candidates, ci as nat);
        lemma_seed_slot(seeded(p, candidates, ci as nat), candidates[ci], 0);
    }
}

proof fn lemma_seeded_sound(
    p: Placement,
    candidates: Seq<Num>,
    confirmed: Seq<Num>,
    end: nat,
)
    requires
        is_sound(p, candidates, confirmed),
        end <= candidates.len(),
    ensures
        is_sound(seeded(p, candidates, end), candidates, confirmed),
    decreases end,
{
    if end > 0 {
        let ci = end - 1;
        let before = seeded(p, candidates, ci as nat);
        lemma_seeded_sound(p, candidates, confirmed, ci as nat);
        lemma_seed_slot(before, candidates[ci], 0);
        if is_unclaimed(before, ci) {
            if let Some(slot) = seed_slot(before, candidates[ci], 0) {
                let q = before.update(slot, Some(ci));
                assert forall|s: int, t: int| 0 <= s < t < 4 && (#[trigger] q[s]) is Some implies
                    q[s] != #[trigger] q[t] by {
                    assert(before[s] == Some(ci) ==> before.contains(Some(ci)));
                    assert(before[t] == Some(ci) ==> before.contains(Some(ci)));
                }
            }
        }
    }
}

/// A formant goes to at most one slot, and only to one whose earlier formant is close or
/// in whose usual range it lies.
pub proof fn lemma_placement_sound(raw: Seq<Num>, confirmed: Seq<Num>)
    ensures
        is_sound(placement(raw, confirmed), candidates_of(raw), confirmed),
{
    let candidates = candidates_of(raw);
    let p = no_placement();
    assert(is_sound(p, candidates, confirmed));
    lemma_continued_sound(p, candidates, confirmed, 4);
    lemma_seeded_sound(
        continued(p, candidates, confirmed, 4),
        candidates,
        confirmed,
        candidates.len(),
    );
}

/// After a silence there is nothing to go by, and every formant that is placed lies in the
/// usual range of its slot.
pub proof fn lemma_cold_start(raw: Seq<Num>, confirmed: Seq<Num>, slot: int)
    requires
        0 <= slot < 4,
        forall|s: int| 0 <= s < 4 ==> !is_anchored(#[trigger] confirmed[s]),
    ensures
        assignment(raw, confirmed)[slot] == zero32() || in_seed_range(
            slot,
            assignment(raw, confirmed)[slot],
        ),
{
    lemma_placement_sound(raw, confirmed);
    assert(!is_anchored(confirmed[slot]));
    let p = placement(raw, confirmed);
    assert(p[slot] is None || p[slot] is Some);
}

/// A candidate that is left over lies in the usual range of no free slot.
proof fn lemma_seeded_complete(
    p: Placement,
    candidates: Seq<Num>,
    end: nat,
    ci: int,
    slot: int,
)
    requires
        p.len() == 4,
        end <= candidates.len(),
        0 <= ci < end,
        0 <= slot < 4,
        is_unclaimed(seeded(p, candidates, end), ci),
        seeded(p, candidates, end)[slot] is None,
    ensures
        !in_seed_range(slot, candidates[ci]),
    decreases end,
{
    let last = end - 1;
    let before = seeded(p, candidates, last as nat);
    let after = seeded(p, candidates, end);
    lemma_seeded_keeps(p, candidates, last as nat);
    lemma_seed_slot(before, candidates[last], 0);
    assert(before[slot] is None);
    assert(is_unclaimed(before, ci)) by {
        if before.contains(Some(ci)) {
            let s = choose|s: int| 0 <= s < before.len() && before[s] == Some(ci);
            assert(after[s] == Some(ci));
        }
    }
    if ci == last {
        if let Some(s) = seed_slot(before, candidates[ci], 0) {
            assert(after[s] == Some(ci));
        }
    } else {
        lemma_seeded_complete(p, candidates, last as nat, ci, slot);
    }
}

/// The best of the pairs up to and including (`slot`, `ci`), from the best before it.
proof fn lemma_best_step(
    p: Placement,
    candidates: Seq<Num>,
    confirmed: Seq<Num>,
    before: Option<(usize, usize)>,
    slot: usize,
    ci: usize,
) -> (best: Option<(usize, usize)>)
    requires
        slot < 4,
        ci < candidates.len(),
        are_comparable(candidates, confirmed),
        confirmed.len() == 4,
        all_hold(candidates),
        all_hold(confirmed),
        is_best_before(p, candidates, confirmed, before, slot as int, ci as int),
    ensures
        is_best_before(p, candidates, confirmed, best, slot as int, ci + 1),
{
    let e = distance(candidates[ci as int], confirmed[slot as int]);
    if !is_available(p, candidates, confirmed, slot as int, ci as int) {
        before
    } else if before is None {
        lemma_plus_holds(binary32(), candidates[ci as int], confirmed[slot as int].minus());
        lemma_below_is_strict_order(binary32(), e, e, e);
        Some((slot, ci))
    } else {
        let (bs, bc) = before->0;
        if e.below(distance(candidates[bc as int], confirmed[bs as int])) {
            lemma_better_pair(p, candidates, confirmed, (bs, bc), slot, ci);
            Some((slot, ci))
        } else {
            before
        }
    }
}

/// Of the pairs that come before (`slot`, `ci`) there is a best one, if any is available.
proof fn lemma_best_exists(
    p: Placement,
    candidates: Seq<Num>,
    confirmed: Seq<Num>,
    slot: usize,
    ci: usize,
) -> (best: Option<(usize, usize)>)
    requires
        slot <= 4,
        slot == 4 ==> ci == 0,
        ci <= candidates.len() <= 4,
        are_comparable(candidates, confirmed),
        confirmed.len() == 4,
        all_hold(candidates),
        all_hold(confirmed),
    ensures
        is_best_before(p, candidates, confirmed, best, slot as int, ci as int),
    decreases slot, ci,
{
    if ci > 0 {
        let before = lemma_best_exists(p, candidates, confirmed, slot, (ci - 1) as usize);
        lemma_best_step(p, candidates, confirmed, before, slot, (ci - 1) as usize)
    } else if slot > 0 {
        let n = candidates.len() as usize;
        let before = lemma_best_exists(p, candidates, confirmed, (slot - 1) as usize, n);
        lemma_best_next_slot(p, candidates, confirmed, before, (slot - 1) as usize);
        before
    } else {
        None
    }
}

/// The best of all pairs of a slot and those before is the best before the next slot.
proof fn lemma_best_next_slot(
    p: Placement,
    candidates: Seq<Num>,
    confirmed: Seq<Num>,
    best: Option<(usize, usize)>,
    slot: usize,
)
    requires
        is_best_before(
            p,
            candidates,
            confirmed,
            best,
            slot as int,
            candidates.len() as int,
        ),
    ensures
        is_best_before(p, candidates, confirmed, best, slot + 1, 0),
{
}

/// How many slots have taken nothing.
spec fn free_slots(p: Placement) -> nat {
    (if p[0] is None { 1nat } else { 0 }) + (if p[1] is None { 1nat } else { 0 }) + (if p[2] is None
        { 1nat } else { 0 }) + (if p[3] is None { 1nat } else { 0 })
}

/// Once matching by continuity is over, no pair is available; and no match is undone.
proof fn lemma_continued_complete(
    p: Placement,
    candidates: Seq<Num>,
    confirmed: Seq<Num>,
    rounds: nat,
)
    requires
        p.len() == 4,
        free_slots(p) <= rounds,
        candidates.len() <= 4,
        are_comparable(candidates, confirmed),
        confirmed.len() == 4,
        all_hold(candidates),
        all_hold(confirmed),
    ensures
        ({
            let q = continued(p, candidates, confirmed, rounds);
            &&& q.len() == 4
            &&& forall|s: int, c: int| !#[trigger] is_available(q, candidates, confirmed, s, c)
        }),
    decreases rounds,
{
    if rounds > 0 {
        let best = lemma_best_exists(p, candidates, confirmed, 4, 0);
        match best {
            None => {
                assert forall|s: int, c: int| !#[trigger]
                    is_available(p, candidates, confirmed, s, c) by {
                    assert(comes_before(s, c, 4, 0) || s >= 4);
                }
                assert(!exists|s: int, c: int| is_nearest(p, candidates, confirmed, s, c)) by {
                    assert forall|s: int, c: int| !is_nearest(p, candidates, confirmed, s, c) by {
                        assert(!is_available(p, candidates, confirmed, s, c));
                    }
                }
            },
            Some((bs, bc)) => {
                assert(is_nearest(p, candidates, confirmed, bs as int, bc as int)) by {
                    assert forall|s: int, c: int| #[trigger]
                        is_available(p, candidates, confirmed, s, c) implies comes_before(
                        s,
                        c,
                        4,
                        0,
                    ) by {}
                }
                lemma_nearest_unique(p, candidates, confirmed, bs as int, bc as int);
                lemma_continued_complete(
                    p.update(bs as int, Some(bc as int)),
                    candidates,
                    confirmed,
                    (rounds - 1) as nat,
                );
            },
        }
    }
}

/// Matching by continuity undoes no match.
proof fn lemma_continued_keeps(
    p: Placement,
    candidates: Seq<Num>,
    confirmed: Seq<Num>,
    rounds: nat,
)
    requires
        p.len() == 4,
    ensures
        continued(p, candidates, confirmed, rounds).len() == 4,
        forall|s: int|
            0 <= s < 4 && (#[trigger] p[s]) is Some ==> continued(
                p,
                candidates,
                confirmed,
                rounds,
            )[s] == p[s],
    decreases rounds,
{
    if rounds > 0 && exists|s: int, c: int| is_nearest(p, candidates, confirmed, s, c) {
        let (slot, ci) = choose|s: int, c: int| is_nearest(p, candidates, confirmed, s, c);
        assert(is_available(p, candidates, confirmed, slot, ci));
        lemma_continued_keeps(
            p.update(slot, Some(ci)),
            candidates,
            confirmed,
            (rounds - 1) as nat,
        );
        assert forall|s: int| 0 <= s < 4 && (#[trigger] p[s]) is Some implies continued(
            p,
            candidates,
            confirmed,
            rounds,
        )[s] == p[s] by {
            assert(p.update(slot, Some(ci))[s] == p[s]);
        }
    }
}

/// Whether a slot has taken a candidate that is no farther from its earlier formant than
/// the candidate `ci` is.
pub open spec fn has_no_farther(
    p: Placement,
    candidates: Seq<Num>,
    confirmed: Seq<Num>,
    slot: int,
    ci: int,
) -> bool {
    &&& p[slot] is Some
    &&& !distance(candidates[ci], confirmed[slot]).below(
        distance(candidates[p[slot]->0], confirmed[slot]),
    )
}

/// Whether a candidate has gone to a slot whose earlier formant is no farther from it than
/// that of `slot` is.
pub open spec fn went_no_farther(
    p: Placement,
    candidates: Seq<Num>,
    confirmed: Seq<Num>,
    slot: int,
    ci: int,
) -> bool {
    exists|s: int|
        {
            &&& 0 <= s < 4
            &&& #[trigger] p[s] == Some(ci)
            &&& is_anchored(confirmed[s])
            &&& !distance(candidates[ci], confirmed[slot]).below(
                distance(candidates[ci], confirmed[s]),
            )
        }
}

/// A free slot and an unclaimed candidate that is close to it: one of them is matched, and
/// that match is no farther.
#[verifier::rlimit(40)]
proof fn lemma_continued_stable(
    p: Placement,
    candidates: Seq<Num>,
    confirmed: Seq<Num>,
    rounds: nat,
    slot: int,
    ci: int,
)
    requires
        p.len() == 4,
        free_slots(p) <= rounds,
        candidates.len() <= 4,
        are_comparable(candidates, confirmed),
        confirmed.len() == 4,
        all_hold(candidates),
        all_hold(confirmed),
        is_available(p, candidates, confirmed, slot, ci),
    ensures
        ({
            let q = continued(p, candidates, confirmed, rounds);
            has_no_farther(q, candidates, confirmed, slot, ci) || went_no_farther(
                q,
                candidates,
                confirmed,
                slot,
                ci,
            )
        }),
    decreases rounds,
{
    let q = continued(p, candidates, confirmed, rounds);
    lemma_continued_complete(p, candidates, confirmed, rounds);
    assert(!is_available(q, candidates, confirmed, slot, ci));
    if rounds > 0 && exists|s: int, c: int| is_nearest(p, candidates, confirmed, s, c) {
        let (s, c) = choose|s: int, c: int| is_nearest(p, candidates, confirmed, s, c);
        assert(is_available(p, candidates, confirmed, s, c));
        let next = p.update(s, Some(c));
        lemma_continued_keeps(next, candidates, confirmed, (rounds - 1) as nat);
        assert(next[s] == Some(c));
        assert(q[s] == Some(c));
        if s != slot && c != ci {
            assert(is_unclaimed(next, ci)) by {
                if next.contains(Some(ci)) {
                    let t = choose|t: int| 0 <= t < next.len() && next[t] == Some(ci);
                    assert(p[t] == Some(ci));
                }
            }
            lemma_continued_stable(
                next,
                candidates,
                confirmed,
                (rounds - 1) as nat,
                slot,
                ci,
            );
        }
    }
}

/// Every candidate is one of the raw values.
pub proof fn lemma_candidates(raw: Seq<Num>)
    ensures
        candidates_of(raw).len() <= raw.len(),
        forall|i: int|
            0 <= i < candidates_of(raw).len() ==> raw.contains(#[trigger] candidates_of(raw)[i])
                && is_present(candidates_of(raw)[i]),
    decreases raw.len(),
{
    reveal(Seq::filter);
    if raw.len() > 0 {
        let front = raw.drop_last();
        lemma_candidates(front);
        let all = candidates_of(raw);
        let before = candidates_of(front);
        assert forall|i: int| 0 <= i < all.len() implies raw.contains(#[trigger] all[i])
            && is_present(all[i]) by {
            if i < before.len() {
                assert(all[i] == before[i]);
                let k = choose|k: int| 0 <= k < front.len() && front[k] == before[i];
                assert(raw[k] == before[i]);
            } else {
                assert(all[i] == raw[raw.len() - 1]);
            }
        }
    }
}

/// Every candidate is a 32-bit number if the raw values are.
pub(crate) proof fn lemma_candidates_hold(raw: Seq<Num>)
    requires
        all_hold(raw),
    ensures
        all_hold(candidates_of(raw)),
{
    let candidates = candidates_of(raw);
    lemma_candidates(raw);
    assert forall|i: int| 0 <= i < candidates.len() implies binary32().holds(
        #[trigger] candidates[i],
    ) by {
        let k = choose|k: int| 0 <= k < raw.len() && raw[k] == candidates[i];
        assert(binary32().holds(raw[k]));
    }
}

/// No slot and formant that are close would both rather have each other: the slot has a
/// formant that is no farther, or the formant is in a slot that is no farther.
#[verifier::rlimit(40)]
pub proof fn lemma_placement_stable(raw: Seq<Num>, confirmed: Seq<Num>, slot: int, ci: int)
    requires
        raw.len() == 4,
        confirmed.len() == 4,
        all_hold(raw),
        all_hold(confirmed),
        are_comparable(candidates_of(raw), confirmed),
        0 <= slot < 4,
        0 <= ci < candidates_of(raw).len(),
        is_anchored(confirmed[slot]),
        is_close(candidates_of(raw)[ci], confirmed[slot]),
    ensures
        has_no_farther(placement(raw, confirmed), candidates_of(raw), confirmed, slot, ci)
            || went_no_farther(
            placement(raw, confirmed),
            candidates_of(raw),
            confirmed,
            slot,
            ci,
        ),
{
    let candidates = candidates_of(raw);
    lemma_candidates(raw);
    lemma_candidates_hold(raw);
    let q = continued(no_placement(), candidates, confirmed, 4);
    lemma_continued_complete(no_placement(), candidates, confirmed, 4);
    assert(is_available(no_placement(), candidates, confirmed, slot, ci));
    lemma_continued_stable(no_placement(), candidates, confirmed, 4, slot, ci);
    let p = seeded(q, candidates, candidates.len());
    lemma_seeded_keeps(q, candidates, candidates.len());
    if has_no_farther(q, candidates, confirmed, slot, ci) {
        assert(p[slot] == q[slot]);
    } else {
        let s = choose|s: int|
            {
                &&& 0 <= s < 4
                &&& #[trigger] q[s] == Some(ci)
                &&& is_anchored(confirmed[s])
                &&& !distance(candidates[ci], confirmed[slot]).below(
                    distance(candidates[ci], confirmed[s]),
                )
            };
        assert(p[s] == q[s]);
    }
}

/// A formant that is left over has no place to go. A slot whose earlier formant is close
/// to it has taken one that is no farther; and every free slot has another usual range.
pub proof fn lemma_placement_complete(
    raw: Seq<Num>,
    confirmed: Seq<Num>,
    slot: int,
    ci: int,
)
    requires
        raw.len() == 4,
        confirmed.len() == 4,
        all_hold(raw),
        all_hold(confirmed),
        are_comparable(candidates_of(raw), confirmed),
        0 <= slot < 4,
        0 <= ci < candidates_of(raw).len(),
        is_unclaimed(placement(raw, confirmed), ci),
    ensures
        is_anchored(confirmed[slot]) && is_close(candidates_of(raw)[ci], confirmed[slot]) ==> {
            &&& placement(raw, confirmed)[slot] is Some
            &&& !distance(candidates_of(raw)[ci], confirmed[slot]).below(
                distance(assignment(raw, confirmed)[slot], confirmed[slot]),
            )
        },
        placement(raw, confirmed)[slot] is None ==> !in_seed_range(
            slot,
            candidates_of(raw)[ci],
        ),
{
    let candidates = candidates_of(raw);
    lemma_candidates(raw);
    lemma_candidates_hold(raw);
    let q = continued(no_placement(), candidates, confirmed, 4);
    lemma_continued_complete(no_placement(), candidates, confirmed, 4);
    let p = seeded(q, candidates, candidates.len());
    lemma_seeded_keeps(q, candidates, candidates.len());
    if is_anchored(confirmed[slot]) && is_close(candidates[ci], confirmed[slot]) {
        lemma_placement_stable(raw, confirmed, slot, ci);
        if went_no_farther(p, candidates, confirmed, slot, ci) {
            assert(p.contains(Some(ci)));
        }
    }
    if p[slot] is None {
        lemma_seeded_complete(q, candidates, candidates.len(), ci, slot);
    }
}

/// How many of the first `end` values are formants.
pub open spec fn present_before(v: Seq<Num>, end: nat) -> int
    decreases end,
{
    if end == 0 {
        0
    } else {
        present_before(v, (end - 1) as nat) + if is_present(v[end - 1]) {
            1int
        } else {
            0int
        }
    }
}

/// The placement in which each of the first `end` slots has its own formant.
spec fn own_placement(v: Seq<Num>, end: nat) -> Placement {
    Seq::new(
        4,
        |slot: int|
            if slot < end && is_present(v[slot]) {
                Some(present_before(v, slot as nat))
            } else {
                None
            },
    )
}

/// A formant is the candidate with the number of the formants before it.
pub(crate) proof fn lemma_candidate_position(v: Seq<Num>, slot: int)
    requires
        0 <= slot < v.len(),
        is_present(v[slot]),
    ensures
        0 <= present_before(v, slot as nat) < candidates_of(v).len(),
        candidates_of(v)[present_before(v, slot as nat)] == v[slot],
    decreases v.len(),
{
    reveal(Seq::filter);
    let front = v.drop_last();
    lemma_present_before_prefix(v, slot as nat);
    if slot < v.len() - 1 {
        lemma_candidate_position(front, slot);
    } else {
        lemma_candidates_len(front);
        lemma_present_before_prefix(v, front.len());
    }
}

/// What comes after does not change how many formants are before.
proof fn lemma_present_before_prefix(v: Seq<Num>, end: nat)
    requires
        v.len() > 0,
        end <= v.len() - 1,
    ensures
        present_before(v, end) == present_before(v.drop_last(), end),
    decreases end,
{
    if end > 0 {
        lemma_present_before_prefix(v, (end - 1) as nat);
    }
}

/// There are as many candidates as formants.
pub(crate) proof fn lemma_candidates_len(v: Seq<Num>)
    ensures
        candidates_of(v).len() == present_before(v, v.len()),
    decreases v.len(),
{
    reveal(Seq::filter);
    if v.len() > 0 {
        lemma_candidates_len(v.drop_last());
        lemma_present_before_prefix(v, (v.len() - 1) as nat);
    }
}

/// The number of formants grows from slot to slot.
pub(crate) proof fn lemma_present_before_monotone(v: Seq<Num>, a: nat, b: nat)
    requires
        a <= b,
    ensures
        0 <= present_before(v, a) <= present_before(v, b),
        a < b && is_present(v[a as int]) ==> present_before(v, a) < present_before(v, b),
    decreases b,
{
    if a < b {
        lemma_present_before_monotone(v, a, (b - 1) as nat);
    } else if a > 0 {
        lemma_present_before_monotone(v, (a - 1) as nat, (a - 1) as nat);
    }
}

/// A candidate is claimed by one of the first slots just if it is one of the first.
proof fn lemma_own_claims(v: Seq<Num>, end: nat, ci: int)
    requires
        end <= 4,
        0 <= ci,
    ensures
        is_unclaimed(own_placement(v, end), ci) <==> ci >= present_before(v, end),
    decreases end,
{
    let p = own_placement(v, end);
    if ci >= present_before(v, end) {
        if p.contains(Some(ci)) {
            let s = choose|s: int| 0 <= s < p.len() && p[s] == Some(ci);
            lemma_present_before_monotone(v, s as nat, end);
        }
    } else if end > 0 {
        let last = end - 1;
        lemma_own_claims(v, last as nat, ci);
        let q = own_placement(v, last as nat);
        if ci < present_before(v, last as nat) {
            let s = choose|s: int| 0 <= s < q.len() && q[s] == Some(ci);
            assert(p[s] == Some(ci));
        } else {
            assert(p[last] == Some(ci));
        }
    }
}

/// Matching by continuity gives each slot its own formant back.
proof fn lemma_continued_steady(v: Seq<Num>, end: nat, rounds: nat)
    requires
        v.len() == 4,
        all_hold(v),
        forall|i: int| 0 <= i < 4 ==> #[trigger] v[i] is Finite,
        end <= 4,
        rounds >= 4 - end,
    ensures
        continued(own_placement(v, end), candidates_of(v), v, rounds) == own_placement(v, 4),
    decreases 4 - end,
{
    let candidates = candidates_of(v);
    let p = own_placement(v, end);
    lemma_zero_holds();
    assert forall|s: int| 0 <= s < 4 implies (is_anchored(#[trigger] v[s]) <==> is_present(
        v[s],
    )) by {}
    if end == 4 {
        assert forall|s: int, c: int| !#[trigger] is_nearest(p, candidates, v, s, c) by {
            if is_available(p, candidates, v, s, c) {
                assert(is_present(v[s]));
            }
        }
    } else if !is_present(v[end as int]) {
        assert(own_placement(v, end + 1) =~= p);
        lemma_continued_steady(v, end + 1, rounds);
    } else {
        let slot = end as int;
        let ci = present_before(v, end);
        lemma_candidate_position(v, slot);
        lemma_own_claims(v, end, ci);
        let d = distance(candidates[ci], v[slot]);
        assert(d == zero32());
        vstd::arithmetic::power2::lemma2_to64();
        lemma_whole_exact(binary32(), MAX_CONTINUITY_JUMP_HZ as nat);
        lemma_zero_is_least(whole32(MAX_CONTINUITY_JUMP_HZ as nat));
        assert(is_available(p, candidates, v, slot, ci));
        assert forall|s: int, c: int| #[trigger] is_available(p, candidates, v, s, c) implies {
            let e = distance(candidates[c], v[s]);
            &&& !e.below(d)
            &&& d.below(e) || slot < s || (slot == s && ci <= c)
        } by {
            let e = distance(candidates[c], v[s]);
            lemma_own_claims(v, end, c);
            lemma_candidates(v);
            let k = choose|k: int| 0 <= k < v.len() && v[k] == candidates[c];
            assert(binary32().holds(v[k]));
            lemma_plus_holds(binary32(), candidates[c], v[s].minus());
            if e !is Nan {
                lemma_zero_is_least(e);
            }
            assert(is_present(v[s]));
        }
        assert(is_nearest(p, candidates, v, slot, ci));
        lemma_nearest_unique(p, candidates, v, slot, ci);
        assert(p.update(slot, Some(ci)) =~= own_placement(v, end + 1));
        lemma_continued_steady(v, end + 1, (rounds - 1) as nat);
    }
}

proof fn lemma_zero_holds()
    ensures
        binary32().holds(zero32()),
{
    vstd::arithmetic::power2::lemma2_to64();
}

/// No number without a sign is below zero.
proof fn lemma_zero_is_least(v: Num)
    requires
        binary32().holds(v),
        v !is Nan,
        !v.negative(),
    ensures
        !v.below(zero32()),
{
    lemma_zero_holds();
    lemma_below_is_rank_order(binary32(), v, zero32());
    let u = binary32().exponent_unit() as int;
    assert((binary32().min_exp() - binary32().min_exp()) * u == 0) by (nonlinear_arith);
    vstd::arithmetic::power2::lemma_pow2_pos(23);
    if v is Finite {
        assert((v->Finite_exp - binary32().min_exp()) * u >= 0) by (nonlinear_arith)
            requires
                v->Finite_exp - binary32().min_exp() >= 0,
                u > 0,
        ;
    } else {
        assert(binary32().infinity_bits() >= 0);
    }
}

/// Seeding has nothing to do where every candidate is claimed.
proof fn lemma_seeded_nothing(p: Placement, candidates: Seq<Num>, end: nat)
    requires
        forall|ci: int| 0 <= ci < end ==> !#[trigger] is_unclaimed(p, ci),
    ensures
        seeded(p, candidates, end) == p,
    decreases end,
{
    if end > 0 {
        lemma_seeded_nothing(p, candidates, (end - 1) as nat);
    }
}

/// A number that is neither above zero nor below it is zero.
proof fn lemma_not_above_or_below_zero(v: Num)
    requires
        binary32().holds(v),
        v is Finite,
        zero32().at_most(v),
        !zero32().below(v),
    ensures
        v.is_zero(),
{
    lemma_zero_holds();
    lemma_order_by_digits(binary32(), zero32(), v);
    lemma_order_by_digits(binary32(), v, zero32());
}

/// A steady voice keeps its slots: where the raw formants are those of the frame before,
/// each of them goes to the slot that it had, and a slot without one stays at zero.
pub proof fn lemma_steady_voice(v: Seq<Num>)
    requires
        v.len() == 4,
        all_hold(v),
        forall|i: int| 0 <= i < 4 ==> (#[trigger] v[i]) is Finite,
    ensures
        assignment(v, v).len() == 4,
        forall|i: int|
            0 <= i < 4 ==> #[trigger] assignment(v, v)[i] == if is_present(v[i]) {
                v[i]
            } else {
                zero32()
            },
        forall|i: int|
            0 <= i < 4 && zero32().at_most(v[i]) ==> #[trigger] assignment(v, v)[i] == v[i] || (
            assignment(v, v)[i].is_zero() && v[i].is_zero()),
{
    let candidates = candidates_of(v);
    assert(own_placement(v, 0) =~= no_placement());
    lemma_continued_steady(v, 0, 4);
    let p = own_placement(v, 4);
    lemma_candidates_len(v);
    assert forall|ci: int| 0 <= ci < candidates.len() implies !#[trigger] is_unclaimed(
        p,
        ci,
    ) by {
        lemma_own_claims(v, 4, ci);
    }
    lemma_seeded_nothing(p, candidates, candidates.len());
    assert(assignment(v, v) == placed(p, candidates));
    assert forall|s: int| 0 <= s < 4 implies #[trigger] assignment(v, v)[s] == if is_present(v[s]) {
        v[s]
    } else {
        zero32()
    } by {
        if is_present(v[s]) {
            lemma_candidate_position(v, s);
        }
    }
    assert forall|s: int| 0 <= s < 4 && zero32().at_most(v[s]) implies #[trigger] assignment(
        v,
        v,
    )[s] == v[s] || (assignment(v, v)[s].is_zero() && v[s].is_zero()) by {
        if !is_present(v[s]) {
            lemma_not_above_or_below_zero(v[s]);
        }
    }
}

} // verus!
