//! What is drawn behind the formants: a lane for each one that a vowel aims at.

use crate::float::{Double, Single};
use crate::equations::one;
use crate::exact::{
    lemma_diff_exact, lemma_dyadic, lemma_rounds_to, lemma_size_zero, lemma_sum_exact,
    lemma_whole_is_dyadic,
};
use crate::laws::{
    lemma_between, lemma_convert_exact, lemma_plus_advances, lemma_round_append,
    lemma_round_signed_monotone, lemma_whole_exact, lemma_whole_order,
};
use crate::number::{
    binary32, binary64, diff32, sum32, sum64, whole32, whole64, widen, Num,
};
use crate::order::{lemma_below_is_rank_order, rank};
use crate::phoneme::{FormantTarget, ViewMode};
use crate::plot::{coordinates, Position};
use crate::rounding::{lemma_plus_holds, lemma_pow2_monotone, lemma_round_holds};
use vstd::arithmetic::power2::{lemma2_to64, lemma_pow2_adds, lemma_pow2_pos, pow2};
use vstd::prelude::*;

verus! {

/// The end of the dash that starts at `x`: 8 on, or where the line ends.
pub open spec fn dash_end(x: Num, x_max: Num) -> Num {
    let end = sum64(x, whole64(8));
    if x_max.below(end) {
        x_max
    } else {
        end
    }
}

/// Where dash `n` of a line starts: 6 behind the end of the one before.
pub open spec fn dash_start(x_min: Num, x_max: Num, n: nat) -> Num
    decreases n,
{
    if n == 0 {
        x_min
    } else {
        sum64(dash_end(dash_start(x_min, x_max, (n - 1) as nat), x_max), whole64(6))
    }
}

/// Whether the dashes of a line reach its end.
pub open spec fn dashes_end(x_min: Num, x_max: Num) -> bool {
    exists|n: nat| !(#[trigger] dash_start(x_min, x_max, n)).below(x_max)
}

/// Whether a line has `n` dashes.
pub open spec fn has_dashes(x_min: Num, x_max: Num, n: nat) -> bool {
    &&& forall|k: nat| k < n ==> (#[trigger] dash_start(x_min, x_max, k)).below(x_max)
    &&& !dash_start(x_min, x_max, n).below(x_max)
}

/// The first `n` dashes of a line at height `y`: start and end of each, then a gap.
pub open spec fn dash_points(x_min: Num, x_max: Num, y: Num, n: nat) -> Seq<(Num, Num)>
    decreases n,
{
    if n == 0 {
        Seq::empty()
    } else {
        let x = dash_start(x_min, x_max, (n - 1) as nat);
        dash_points(x_min, x_max, y, (n - 1) as nat) + seq![
            (x, y),
            (dash_end(x, x_max), y),
            (Num::Nan, Num::Nan),
        ]
    }
}

/// Whether some points are those of a dashed line.
pub open spec fn is_dashed_line(points: Seq<(Num, Num)>, x_min: Num, x_max: Num, y: Num) -> bool {
    exists|n: nat|
        #[trigger] has_dashes(x_min, x_max, n) && points == dash_points(x_min, x_max, y, n)
}

/// The points of a dashed horizontal line.
pub fn dashed_hline(x_min: Double, x_max: Double, y: Double) -> (points: Vec<Position>)
    requires
        dashes_end(x_min@, x_max@),
    ensures
        is_dashed_line(coordinates(points@), x_min@, x_max@, y@),
{
    let ghost bound = choose|n: nat| !(#[trigger] dash_start(x_min@, x_max@, n)).below(x_max@);
    let ghost mut n: nat = 0;
    let nan: Double = Double::from_bits(0x7ff8_0000_0000_0000);
    proof {
        lemma_nan_bits();
    }
    let dash_len: Double = Double::from_whole(8);
    let gap_len: Double = Double::from_whole(6);
    let mut points: Vec<Position> = Vec::new();
    let mut x: Double = x_min;
    assert(coordinates(points@) =~= Seq::empty());
    while x.lt(x_max)
        invariant
            !dash_start(x_min@, x_max@, bound).below(x_max@),
            n <= bound,
            nan@ == Num::Nan,
            dash_len@ == whole64(8),
            gap_len@ == whole64(6),
            x@ == dash_start(x_min@, x_max@, n),
            forall|k: nat| k < n ==> (#[trigger] dash_start(x_min@, x_max@, k)).below(x_max@),
            coordinates(points@) == dash_points(x_min@, x_max@, y@, n),
        decreases bound - n,
    {
        let ghost before = points@;
        let reach: Double = x.add(dash_len);
        let end: Double = if x_max.lt(reach) {
            x_max
        } else {
            reach
        };
        points.push(Position { x, y });
        points.push(Position { x: end, y });
        points.push(Position { x: nan, y: nan });
        assert(coordinates(points@) =~= coordinates(before) + seq![
            (x@, y@),
            (dash_end(x@, x_max@), y@),
            (Num::Nan, Num::Nan),
        ]);
        x = end.add(gap_len);
        proof {
            n = n + 1;
        }
    }
    assert(has_dashes(x_min@, x_max@, n));
    points
}

proof fn lemma_nan_bits()
    ensures
        binary64().decode(0x7ff8_0000_0000_0000) == Num::Nan,
{
    crate::float::lemma_encoding_units();
}

/// Whether a number is finite and less than `2^55` away from zero, where 64-bit numbers
/// lie no more than 4 apart.
pub open spec fn is_near(v: Num) -> bool {
    v is Finite && v->Finite_exp <= 2
}

/// The dashes of a line whose ends are finite and less than `2^55` away from zero reach its
/// end.
pub proof fn lemma_dashes_end(x_min: Num, x_max: Num)
    requires
        binary64().holds(x_min),
        binary64().holds(x_max),
        is_near(x_min),
        is_near(x_max),
    ensures
        dashes_end(x_min, x_max),
{
    if x_min.below(x_max) {
        lemma_dashes_end_from(x_min, x_max, 0);
    } else {
        assert(!dash_start(x_min, x_max, 0).below(x_max));
    }
}

/// Numbers no more than 4 apart from their neighbours are passed by adding 6 or 8.
proof fn lemma_step_advances(v: Num, n: nat)
    requires
        n == 6 || n == 8,
        binary64().holds(v),
        is_near(v),
    ensures
        binary64().holds(sum64(v, whole64(n))),
        sum64(v, whole64(n)) !is Nan,
        rank(binary64(), v) < rank(binary64(), sum64(v, whole64(n))),
{
    let f = binary64();
    lemma2_to64();
    vstd::arithmetic::power2::lemma2_to64_rest();
    lemma_whole_exact(f, n);
    let w = f.whole(n);
    lemma_plus_holds(f, v, w);
    let y = f.min_exp();
    let base = (-y) as nat;
    lemma_pow2_pos(base);
    lemma_pow2_adds(2, base);
    lemma_pow2_monotone((v->Finite_exp - y) as nat, base + 2);
    let d = pow2(base);
    assert(4 * d <= n * d) by (nonlinear_arith)
        requires
            n >= 4,
    ;
    lemma_plus_advances(f, v, w);
    lemma_below_is_rank_order(f, v, sum64(v, w));
}

proof fn lemma_dashes_end_from(x_min: Num, x_max: Num, n: nat)
    requires
        binary64().holds(x_min),
        binary64().holds(x_max),
        is_near(x_min),
        is_near(x_max),
        ({
            let x = dash_start(x_min, x_max, n);
            &&& binary64().holds(x)
            &&& x !is Nan
            &&& x.below(x_max)
            &&& rank(binary64(), x_min) <= rank(binary64(), x)
        }),
    ensures
        dashes_end(x_min, x_max),
    decreases rank(binary64(), x_max) - rank(binary64(), dash_start(x_min, x_max, n)),
{
    let f = binary64();
    let x = dash_start(x_min, x_max, n);
    lemma_below_is_rank_order(f, x, x_max);
    lemma_between(f, x_min, x, x_max, 2);
    lemma_step_advances(x, 8);
    let reach = sum64(x, whole64(8));
    let end = dash_end(x, x_max);
    lemma_below_is_rank_order(f, x_max, reach);
    lemma_between(f, x_min, end, x_max, 2);
    lemma_step_advances(end, 6);
    let next = dash_start(x_min, x_max, n + 1);
    assert(next == sum64(end, whole64(6)));
    if next.below(x_max) {
        lemma_below_is_rank_order(f, next, x_max);
        lemma_dashes_end_from(x_min, x_max, n + 1);
    }
}

/// Every dash of a line whose ends are finite and less than `2^55` away from zero lies
/// between them, and goes forward.
pub proof fn lemma_dashes_within(x_min: Num, x_max: Num, n: nat, k: nat)
    requires
        binary64().holds(x_min),
        binary64().holds(x_max),
        is_near(x_min),
        is_near(x_max),
        has_dashes(x_min, x_max, n),
        k < n,
    ensures
        ({
            let x = dash_start(x_min, x_max, k);
            &&& binary64().holds(x)
            &&& x_min.at_most(x)
            &&& x.below(dash_end(x, x_max))
            &&& dash_end(x, x_max).at_most(x_max)
        }),
    decreases k,
{
    let f = binary64();
    let x = dash_start(x_min, x_max, k);
    assert(x.below(x_max));
    if k > 0 {
        let before = dash_start(x_min, x_max, (k - 1) as nat);
        lemma_dashes_within(x_min, x_max, n, (k - 1) as nat);
        lemma_dash_between(x_min, x_max, before);
    }
    lemma_below_is_rank_order(f, x_min, x_min);
    lemma_dash_between(x_min, x_max, x);
}

/// The dash that starts at `x`, and the start of the next one.
proof fn lemma_dash_between(x_min: Num, x_max: Num, x: Num)
    requires
        binary64().holds(x_min),
        binary64().holds(x_max),
        is_near(x_min),
        is_near(x_max),
        binary64().holds(x),
        x_min.at_most(x),
        x.below(x_max),
    ensures
        ({
            let end = dash_end(x, x_max);
            let next = sum64(end, whole64(6));
            &&& x.below(end)
            &&& end.at_most(x_max)
            &&& binary64().holds(next)
            &&& x_min.at_most(next)
        }),
{
    let f = binary64();
    lemma_below_is_rank_order(f, x, x_min);
    lemma_below_is_rank_order(f, x, x_max);
    lemma_between(f, x_min, x, x_max, 2);
    lemma_step_advances(x, 8);
    let reach = sum64(x, whole64(8));
    let end = dash_end(x, x_max);
    lemma_below_is_rank_order(f, x_max, reach);
    lemma_below_is_rank_order(f, x, end);
    lemma_below_is_rank_order(f, x_max, end);
    lemma_between(f, x_min, end, x_max, 2);
    lemma_step_advances(end, 6);
    lemma_below_is_rank_order(f, sum64(end, whole64(6)), x_min);
}

/// A lane in a plot: the area within a standard deviation of the mean, a line along the
/// mean, and dashed lines along the edges.
pub struct Band {
    pub polygon: [Position; 4],
    pub mean: Double,
    pub low: Vec<Position>,
    pub high: Vec<Position>,
}

impl Band {
    /// Whether the lane has the given mean and standard deviation and spans the plot from
    /// `x_min` to `x_max`.
    pub open spec fn is_lane(self, mean: Num, std: Num, x_min: Num, x_max: Num) -> bool {
        let low = widen(diff32(mean, std));
        let high = widen(sum32(mean, std));
        &&& coordinates(self.polygon@) == seq![
            (x_min, low),
            (x_max, low),
            (x_max, high),
            (x_min, high),
        ]
        &&& self.mean@ == widen(mean)
        &&& is_dashed_line(coordinates(self.low@), x_min, x_max, low)
        &&& is_dashed_line(coordinates(self.high@), x_min, x_max, high)
    }
}

/// The lane for a formant with the given mean and standard deviation, from one end of the
/// plot to the other.
pub fn formant_band(mean_std: (Single, Single), x_range: (Double, Double)) -> (r: Band)
    requires
        dashes_end(x_range.0@, x_range.1@),
    ensures
        r.is_lane(mean_std.0@, mean_std.1@, x_range.0@, x_range.1@),
{
    let (mean, std) = mean_std;
    let (x_min, x_max) = x_range;
    let low: Double = Double::from_single(mean.sub(std));
    let high: Double = Double::from_single(mean.add(std));
    let polygon: [Position; 4] = [
        Position { x: x_min, y: low },
        Position { x: x_max, y: low },
        Position { x: x_max, y: high },
        Position { x: x_min, y: high },
    ];
    assert(coordinates(polygon@) =~= seq![
        (x_min@, low@),
        (x_max@, low@),
        (x_max@, high@),
        (x_min@, high@),
    ]);
    Band {
        polygon,
        mean: Double::from_single(mean),
        low: dashed_hline(x_min, x_max, low),
        high: dashed_hline(x_min, x_max, high),
    }
}

/// The names of the parts of a lane: the area, the mean, and the two edges.
pub fn band_names(label: &str) -> (r: [String; 4])
    ensures
        r@[0]@ == label@ + "_polygon"@,
        r@[1]@ == label@ + "_line_mean"@,
        r@[2]@ == label@ + "_line_min"@,
        r@[3]@ == label@ + "_line_max"@,
{
    let mut polygon: String = label.to_owned();
    polygon.append("_polygon");
    let mut mean: String = label.to_owned();
    mean.append("_line_mean");
    let mut low: String = label.to_owned();
    low.append("_line_min");
    let mut high: String = label.to_owned();
    high.append("_line_max");
    [polygon, mean, low, high]
}

/// How many frames wide a plot is: as many as the history has, but at least one.
pub open spec fn plot_width(history_len: nat) -> nat {
    if history_len == 0 {
        1
    } else {
        history_len
    }
}

/// A plot is never narrower than one frame, and with each frame after the first it grows by
/// one.
pub proof fn lemma_plot_grows(history_len: nat)
    ensures
        plot_width(0) == 1,
        plot_width(1) == 1,
        plot_width(history_len + 2) == plot_width(history_len + 1) + 1,
{
}

/// From where to where a plot of a history goes.
pub fn plot_range(history_len: usize) -> (r: (Double, Double))
    ensures
        r.0@ == whole64(0),
        r.1@ == whole64(plot_width(history_len as nat)),
        history_len < 0x20_0000_0000_0000 ==> dashes_end(r.0@, r.1@),
{
    let width: usize = if history_len == 0 {
        1
    } else {
        history_len
    };
    proof {
        if history_len < 0x20_0000_0000_0000 {
            lemma2_to64();
            vstd::arithmetic::power2::lemma2_to64_rest();
            lemma_whole_exact(binary64(), 0);
            lemma_whole_exact(binary64(), width as nat);
            lemma_dashes_end(whole64(0), whole64(width as nat));
        }
    }
    (Double::from_whole(0), Double::from_whole(width as u64))
}

/// The part of the x axis that a plot of a history shows, and that its lanes span: all of
/// the history where the plot follows its contents, and its bounds where they were moved.
pub fn visible_range(
    follows_contents: bool,
    bounds: (Double, Double),
    history_len: usize,
) -> (r: (Double, Double))
    ensures
        follows_contents ==> r.0@ == whole64(0) && r.1@ == whole64(
            plot_width(history_len as nat),
        ),
        !follows_contents ==> r == bounds,
{
    if follows_contents {
        plot_range(history_len)
    } else {
        bounds
    }
}

/// Whether a line from one end of a plot to the other can be drawn with dashes: it has
/// none, or both ends are finite and less than `2^55` away from zero. Farther away a dash
/// and its gap may be lost in rounding, and the dashes never come to an end.
pub fn can_be_dashed(x_range: (Double, Double)) -> (r: bool)
    ensures
        r == (!x_range.0@.below(x_range.1@) || (is_near(x_range.0@) && is_near(x_range.1@))),
        r ==> dashes_end(x_range.0@, x_range.1@),
{
    let (x_min, x_max) = x_range;
    if !x_min.lt(x_max) {
        assert(!dash_start(x_min@, x_max@, 0).below(x_max@));
        return true;
    }
    if x_min.is_as_fine_as(2) && x_max.is_as_fine_as(2) {
        proof {
            lemma_dashes_end(x_min@, x_max@);
        }
        true
    } else {
        false
    }
}

/// The lane for formant `idx` of a target, from one end of the plot to the other.
pub fn band_for_slot(target: FormantTarget, idx: usize, x_range: (Double, Double)) -> (r: Band)
    requires
        idx < 4,
        dashes_end(x_range.0@, x_range.1@),
    ensures
        r.is_lane(
            target.pair(idx as int).0@,
            target.pair(idx as int).1@,
            x_range.0@,
            x_range.1@,
        ),
{
    formant_band(target.slot(idx), x_range)
}

/// The formants that each plot of a view shows: all four in one, or one in each of four.
pub open spec fn panels_of(mode: ViewMode) -> Seq<Seq<usize>> {
    match mode {
        ViewMode::Grouped => seq![seq![0usize, 1usize, 2usize, 3usize]],
        ViewMode::Split => seq![seq![0usize], seq![1usize], seq![2usize], seq![3usize]],
    }
}

/// The formants that each plot of a view shows.
pub fn panels(mode: ViewMode) -> (r: Vec<Vec<usize>>)
    ensures
        r@.map_values(|panel: Vec<usize>| panel@) == panels_of(mode),
{
    let mut r: Vec<Vec<usize>> = Vec::new();
    match mode {
        ViewMode::Grouped => {
            let mut panel: Vec<usize> = Vec::new();
            panel.push(0);
            panel.push(1);
            panel.push(2);
            panel.push(3);
            assert(panel@ =~= seq![0usize, 1usize, 2usize, 3usize]);
            r.push(panel);
        },
        ViewMode::Split => {
            let mut i: usize = 0;
            while i < 4
                invariant
                    i <= 4,
                    r@.len() == i,
                    forall|k: int| 0 <= k < i ==> (#[trigger] r@[k])@ == seq![k as usize],
                decreases 4 - i,
            {
                let mut panel: Vec<usize> = Vec::new();
                panel.push(i);
                assert(panel@ =~= seq![i]);
                r.push(panel);
                i = i + 1;
            }
        },
    }
    assert(r@.map_values(|panel: Vec<usize>| panel@) =~= panels_of(mode));
    r
}

/// Adding whole numbers that fit the format is exact.
#[verifier::rlimit(40)]
proof fn lemma_whole_sum(a: nat, b: nat)
    requires
        b > 0,
        a + b < 0x20_0000_0000_0000,
    ensures
        sum64(whole64(a), whole64(b)) == whole64(a + b),
{
    let f = binary64();
    lemma2_to64();
    vstd::arithmetic::power2::lemma2_to64_rest();
    lemma_whole_exact(f, a);
    lemma_whole_exact(f, b);
    lemma_whole_exact(f, a + b);
    let y = f.min_exp();
    let (v, w, t) = (whole64(a), whole64(b), whole64(a + b));
    let x = crate::number::common_exp(v, w);
    let sum = crate::number::units(v, x) + crate::number::units(w, x);
    crate::laws::lemma_units_finer(v, x, y);
    crate::laws::lemma_units_finer(w, x, y);
    lemma_size_zero(t, y);
    let d = pow2((x - y) as nat) as int;
    let u = pow2((-y) as nat) as int;
    lemma_pow2_pos((x - y) as nat);
    lemma_pow2_pos((-y) as nat);
    assert(a * u + b * u == (a + b) * u && (a + b) * u > 0) by (nonlinear_arith)
        requires
            a + b > 0,
            u > 0,
    ;
    assert(sum * d == (a + b) * u && sum > 0) by (nonlinear_arith)
        requires
            sum == crate::number::units(v, x) + crate::number::units(w, x),
            crate::number::units(v, x) * d + crate::number::units(w, x) * d == (a + b) * u,
            (a + b) * u > 0,
            d > 0,
    ;
    assert(!t.negative());
    lemma_rounds_to(f, false, sum as nat, x, t, y);
}

/// Where the dashes of a line with whole ends are: 8 long, 6 apart, from its start on.
#[verifier::rlimit(40)]
proof fn lemma_whole_dash(a: nat, b: nat, k: nat)
    requires
        a + 14 * k < b,
        b + 14 < 0x20_0000_0000_0000,
    ensures
        dash_start(whole64(a), whole64(b), k) == whole64(a + 14 * k),
        dash_end(whole64(a + 14 * k), whole64(b)) == whole64(
            if a + 14 * k + 8 < b {
                a + 14 * k + 8
            } else {
                b
            },
        ),
        whole64(a + 14 * k).below(whole64(b)),
    decreases k,
{
    let f = binary64();
    lemma2_to64();
    vstd::arithmetic::power2::lemma2_to64_rest();
    let x = a + 14 * k;
    lemma_whole_order(f, x, b);
    lemma_whole_sum(x, 8);
    lemma_whole_order(f, b, x + 8);
    if x + 8 == b {
        assert(whole64(x + 8) == whole64(b));
    }
    if k > 0 {
        let l = (k - 1) as nat;
        lemma_whole_dash(a, b, l);
        lemma_whole_sum(a + 14 * l + 8, 6);
    }
}

/// The dashes of a line with whole ends: dash `k` starts at `14 * k` from the start, is 8
/// long or ends with the line, and is followed by a gap.
#[verifier::rlimit(40)]
pub proof fn lemma_dashes_in_numbers(
    points: Seq<(Num, Num)>,
    a: nat,
    b: nat,
    y: Num,
    k: nat,
)
    requires
        is_dashed_line(points, whole64(a), whole64(b), y),
        b + 14 < 0x20_0000_0000_0000,
        a + 14 * k < b,
    ensures
        3 * k + 2 < points.len(),
        points[3 * k as int] == (whole64(a + 14 * k), y),
        a + 14 * k + 8 < b ==> points[3 * k as int + 1] == (whole64(a + 14 * k + 8), y),
        a + 14 * k + 8 >= b ==> points[3 * k as int + 1] == (whole64(b), y),
        points[3 * k as int + 2] == (Num::Nan, Num::Nan),
{
    lemma_whole_dash(a, b, k);
    let (x_min, x_max, start) = (whole64(a), whole64(b), whole64(a + 14 * k));
    let n = lemma_points_of_dashes(points, x_min, x_max, y, k, start, dash_end(start, x_max));
    lemma_dash_count(a, b, n, k);
}

/// A line with whole ends has no dash where it has ended.
pub proof fn lemma_dashes_stop(points: Seq<(Num, Num)>, a: nat, b: nat, y: Num, k: nat)
    requires
        is_dashed_line(points, whole64(a), whole64(b), y),
        b + 14 < 0x20_0000_0000_0000,
        k == 0 || a + 14 * (k - 1) < b,
        a + 14 * k >= b,
    ensures
        points.len() <= 3 * k,
{
    let n = lemma_points_of_dashes(points, whole64(a), whole64(b), y, k, y, y);
    lemma_dash_count(a, b, n, k);
}

/// The points of a dash whose ends are known.
proof fn lemma_points_of_dashes(
    points: Seq<(Num, Num)>,
    x_min: Num,
    x_max: Num,
    y: Num,
    k: nat,
    start: Num,
    end: Num,
) -> (n: nat)
    requires
        is_dashed_line(points, x_min, x_max, y),
    ensures
        has_dashes(x_min, x_max, n),
        points.len() == 3 * n,
        k < n && dash_start(x_min, x_max, k) == start && dash_end(start, x_max) == end ==> {
            &&& points[3 * k as int] == (start, y)
            &&& points[3 * k as int + 1] == (end, y)
            &&& points[3 * k as int + 2] == (Num::Nan, Num::Nan)
        },
{
    let n = choose|n: nat|
        #[trigger] has_dashes(x_min, x_max, n) && points == dash_points(x_min, x_max, y, n);
    lemma_dash_points(x_min, x_max, y, n, k);
    n
}

/// How many dashes a line with whole ends has.
#[verifier::rlimit(40)]
proof fn lemma_dash_count(a: nat, b: nat, n: nat, k: nat)
    requires
        has_dashes(whole64(a), whole64(b), n),
        b + 14 < 0x20_0000_0000_0000,
        k == 0 || a + 14 * (k - 1) < b,
    ensures
        a + 14 * k < b <==> k < n,
{
    let f = binary64();
    let (x_min, x_max) = (whole64(a), whole64(b));
    if a + 14 * k < b {
        if n <= k {
            lemma_whole_dash(a, b, n);
        }
    } else if n > k {
        lemma2_to64();
        vstd::arithmetic::power2::lemma2_to64_rest();
        assert(dash_start(x_min, x_max, k).below(x_max));
        if k == 0 {
            lemma_whole_order_past(a, b);
        } else {
            let l = (k - 1) as nat;
            lemma_whole_dash(a, b, l);
            let end = if a + 14 * l + 8 < b {
                a + 14 * l + 8
            } else {
                b
            };
            lemma_whole_sum(end, 6);
            lemma_whole_order(f, end + 6, b);
        }
    }
}

/// A line does not start behind its end.
proof fn lemma_whole_order_past(a: nat, b: nat)
    requires
        a >= b,
        b + 14 < 0x20_0000_0000_0000,
    ensures
        !whole64(a).below(whole64(b)),
{
    let f = binary64();
    lemma_round_append(f, false, a, 0, 0);
    lemma_round_signed_monotone(f, b as int, a as int, 0);
    lemma_round_holds(f, false, a, 0, false);
    lemma_round_holds(f, false, b, 0, false);
    lemma_below_is_rank_order(f, whole64(a), whole64(b));
}

/// The points of the first dashes.
proof fn lemma_dash_points(x_min: Num, x_max: Num, y: Num, n: nat, k: nat)
    ensures
        dash_points(x_min, x_max, y, n).len() == 3 * n,
        k < n ==> {
            let x = dash_start(x_min, x_max, k);
            let points = dash_points(x_min, x_max, y, n);
            &&& points[3 * k as int] == (x, y)
            &&& points[3 * k as int + 1] == (dash_end(x, x_max), y)
            &&& points[3 * k as int + 2] == (Num::Nan, Num::Nan)
        },
    decreases n,
{
    if n > 0 {
        lemma_dash_points(x_min, x_max, y, (n - 1) as nat, k);
    }
}

/// A whole number keeps its value in the wider format.
#[verifier::rlimit(40)]
proof fn lemma_widen_whole(n: nat)
    requires
        n < 0x100_0000,
    ensures
        widen(whole32(n)) == whole64(n),
{
    let (f, g) = (binary32(), binary64());
    lemma2_to64();
    vstd::arithmetic::power2::lemma2_to64_rest();
    lemma_whole_exact(f, n);
    lemma_whole_exact(g, n);
    let (v, w) = (whole32(n), whole64(n));
    let y = g.min_exp();
    lemma_convert_exact(f, g, v);
    crate::laws::lemma_units_finer(v, f.min_exp(), y);
    lemma_pow2_adds((-f.min_exp()) as nat, (f.min_exp() - y) as nat);
    let (p, q) = (pow2((-f.min_exp()) as nat) as int, pow2((f.min_exp() - y) as nat) as int);
    assert((n * p) * q == n * (p * q)) by (nonlinear_arith);
    assert(!v.negative() && !w.negative());
    lemma_size_zero(v, y);
    lemma_size_zero(w, y);
    lemma_rounds_to(g, false, v->mant, v->Finite_exp, w, y);
}

/// The lane of a whole mean and deviation: its area lies between the mean less the deviation
/// and the mean and the deviation, its dashed lines along those edges, and its line along
/// the mean.
pub proof fn lemma_lane_in_numbers(band: Band, mean: nat, std: nat, x_min: Num, x_max: Num)
    requires
        band.is_lane(whole32(mean), whole32(std), x_min, x_max),
        std < mean,
        mean + std < 0x100_0000,
    ensures
        coordinates(band.polygon@) == seq![
            (x_min, whole64((mean - std) as nat)),
            (x_max, whole64((mean - std) as nat)),
            (x_max, whole64(mean + std)),
            (x_min, whole64(mean + std)),
        ],
        band.mean@ == whole64(mean),
        is_dashed_line(coordinates(band.low@), x_min, x_max, whole64((mean - std) as nat)),
        is_dashed_line(coordinates(band.high@), x_min, x_max, whole64(mean + std)),
{
    lemma_whole_parts(mean, std);
    lemma_widen_whole(mean);
    lemma_widen_whole((mean - std) as nat);
    lemma_widen_whole(mean + std);
}

proof fn lemma_whole_parts(mean: nat, std: nat)
    requires
        std < mean,
        mean + std < 0x100_0000,
    ensures
        diff32(whole32(mean), whole32(std)) == whole32((mean - std) as nat),
        sum32(whole32(mean), whole32(std)) == whole32(mean + std),
{
    let u = one();
    lemma_whole_is_dyadic(mean);
    lemma_whole_is_dyadic(std);
    lemma_whole_is_dyadic((mean - std) as nat);
    lemma_whole_is_dyadic(mean + std);
    lemma_dyadic(mean, 0);
    lemma_dyadic(std, 0);
    lemma_dyadic((mean - std) as nat, 0);
    lemma_dyadic(mean + std, 0);
    assert(mean * u - std * u == (mean - std) * u && mean * u + std * u == (mean + std) * u)
        by (nonlinear_arith);
    lemma_diff_exact(whole32(mean), whole32(std), whole32((mean - std) as nat));
    lemma_sum_exact(whole32(mean), whole32(std), whole32(mean + std));
}

} // verus!
