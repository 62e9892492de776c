use std::collections::VecDeque;
use voxxy::float::Single;
use voxxy::overlay::{
    band_for_slot, band_names, can_be_dashed, dashed_hline, formant_band, panels, plot_range,
    visible_range,
};
use voxxy::float::Double;
use voxxy::phoneme::{
    choice, choice_label, target_for, FormantTarget, Phoneme, PhonemeSelection, ViewMode, CHOICES,
    FORMANT_LABELS, PHONEME_TARGETS,
};
use voxxy::plot::{formant_points, FormantFrame, FormantPlot, Position};
use voxxy::tracking::assign_formants;

fn single(v: f32) -> Single {
    Single::from_bits(v.to_bits())
}

fn float(s: Single) -> f32 {
    f32::from_bits(s.to_bits())
}

fn double(v: f64) -> Double {
    Double::from_bits(v.to_bits())
}

fn four(v: [f32; 4]) -> [Single; 4] {
    [single(v[0]), single(v[1]), single(v[2]), single(v[3])]
}

fn frame(v: [f32; 4]) -> FormantFrame {
    FormantFrame::new(four(v)).unwrap()
}

fn hz(f: &FormantFrame) -> [f32; 4] {
    [float(f.get(0)), float(f.get(1)), float(f.get(2)), float(f.get(3))]
}

fn assigned(raw: [f32; 4], last: [f32; 4]) -> [f32; 4] {
    let r = assign_formants(&four(raw), &four(last));
    [float(r[0]), float(r[1]), float(r[2]), float(r[3])]
}

/// The same rule with a sorted list of pairs.
fn assigned_by_sorting(raw: [f32; 4], last: [f32; 4]) -> [f32; 4] {
    let ranges = [(250.0, 950.0), (950.0, 2500.0), (2500.0, 3500.0), (3500.0, 4500.0)];
    let candidates: Vec<f32> = raw.iter().copied().filter(|&v| v > 0.0).collect();
    let mut out = [0.0f32; 4];
    let mut claimed = [false; 4];
    let mut taken = [false; 4];
    let mut pairs: Vec<(usize, usize, f32)> = Vec::new();
    for (slot, &conf) in last.iter().enumerate() {
        if conf <= 0.0 {
            continue;
        }
        for (ci, &cand) in candidates.iter().enumerate() {
            pairs.push((slot, ci, (cand - conf).abs()));
        }
    }
    pairs.sort_by(|a, b| a.2.partial_cmp(&b.2).unwrap());
    for (slot, ci, dist) in pairs {
        if taken[slot] || claimed[ci] || dist > 400.0 {
            continue;
        }
        out[slot] = candidates[ci];
        taken[slot] = true;
        claimed[ci] = true;
    }
    for (ci, &cand) in candidates.iter().enumerate() {
        if claimed[ci] {
            continue;
        }
        for (slot, &(lo, hi)) in ranges.iter().enumerate() {
            if !taken[slot] && cand >= lo && cand < hi {
                out[slot] = cand;
                taken[slot] = true;
                break;
            }
        }
    }
    out
}

#[test]
fn formants_are_seeded_by_range() {
    assert_eq!(assigned([500.0, 1500.0, 2600.0, 3600.0], [0.0; 4]), [500.0, 1500.0, 2600.0, 3600.0]);
    assert_eq!(assigned([1500.0, 2600.0, 0.0, 0.0], [0.0; 4]), [0.0, 1500.0, 2600.0, 0.0]);
    assert_eq!(assigned([300.0, 600.0, 0.0, 0.0], [0.0; 4]), [300.0, 0.0, 0.0, 0.0]);
    assert_eq!(assigned([249.0, 950.0, 2500.0, 4500.0], [0.0; 4]), [0.0, 950.0, 2500.0, 0.0]);
    assert_eq!(assigned([0.0; 4], [500.0, 1500.0, 0.0, 0.0]), [0.0; 4]);
}

#[test]
fn formants_continue_the_closest() {
    assert_eq!(assigned([600.0, 900.0, 0.0, 0.0], [500.0, 1000.0, 0.0, 0.0]), [600.0, 900.0, 0.0, 0.0]);
    // a jump of 400 continues, a larger one does not
    assert_eq!(assigned([900.0, 0.0, 0.0, 0.0], [500.0, 0.0, 0.0, 0.0]), [900.0, 0.0, 0.0, 0.0]);
    assert_eq!(assigned([900.5, 0.0, 0.0, 0.0], [500.0, 0.0, 0.0, 0.0]), [900.5, 0.0, 0.0, 0.0]);
    assert_eq!(assigned([1400.0, 0.0, 0.0, 0.0], [500.0, 0.0, 0.0, 0.0]), [0.0, 1400.0, 0.0, 0.0]);
    // the nearest pair goes first, whatever the slots
    assert_eq!(assigned([700.0, 0.0, 0.0, 0.0], [500.0, 800.0, 0.0, 0.0]), [0.0, 700.0, 0.0, 0.0]);
    // of two equally near, the first slot
    assert_eq!(assigned([600.0, 0.0, 0.0, 0.0], [500.0, 700.0, 0.0, 0.0]), [600.0, 0.0, 0.0, 0.0]);
    // a negative value is no anchor
    assert_eq!(assigned([600.0, 0.0, 0.0, 0.0], [-500.0, 650.0, 0.0, 0.0]), [0.0, 600.0, 0.0, 0.0]);
}

#[test]
fn a_single_pair_that_is_no_number_still_matches() {
    let inf = f32::INFINITY;
    assert_eq!(assigned([inf, 0.0, 0.0, 0.0], [inf, 0.0, 0.0, 0.0]), [inf, 0.0, 0.0, 0.0]);
    assert_eq!(assigned([inf, 0.0, 0.0, 0.0], [0.0; 4]), [0.0; 4]);
}

#[test]
fn a_steady_voice_keeps_its_slots() {
    for v in [
        [500.0, 1500.0, 2600.0, 3600.0],
        [500.0, 0.0, 2600.0, 0.0],
        [700.0, 700.0, 700.0, 700.0],
        [2600.0, 500.0, 0.0, 510.0],
    ] {
        assert_eq!(assigned(v, v), v);
    }
    // a slot without a formant ends at zero, the positive one
    let v = [-0.0, 900.0, -3.0, 0.0];
    assert_eq!(assigned(v, v).map(f32::to_bits), [0.0, 900.0, 0.0, 0.0f32].map(f32::to_bits));
}

#[test]
fn assignment_matches_sorting_all_pairs() {
    let mut state: u64 = 17;
    let mut value = |spread: u64| -> f32 {
        state = state.wrapping_mul(6364136223846793005).wrapping_add(1442695040888963407);
        let r = state >> 33;
        if r % 4 == 0 { 0.0 } else { ((r >> 3) % spread) as f32 * (4600.0 / spread as f32) }
    };
    for i in 0..40_000u64 {
        let spread = [23, 46, 460, 4600][(i % 4) as usize];
        let raw = [value(spread), value(spread), value(spread), value(spread)];
        let last = [value(spread), value(spread), value(spread), value(spread)];
        assert_eq!(assigned(raw, last), assigned_by_sorting(raw, last), "{raw:?} {last:?}");
    }
}

#[test]
fn nobody_would_rather_have_each_other() {
    // 700 is left over: slot 0 has one that is no farther from 600
    assert_eq!(
        assigned([500.0, 700.0, 0.0, 0.0], [600.0, 0.0, 0.0, 0.0]),
        [500.0, 0.0, 0.0, 0.0]
    );
    let mut state: u64 = 5;
    let mut value = || -> f32 {
        state = state.wrapping_mul(6364136223846793005).wrapping_add(1442695040888963407);
        (200 + (state >> 33) % 1400) as f32
    };
    for _ in 0..5_000 {
        let raw = [value(), value(), value(), value()];
        let last = [value(), value(), value(), value()];
        let got = assigned(raw, last);
        for (slot, &conf) in last.iter().enumerate() {
            for &cand in &raw {
                let d = (cand - conf).abs();
                if d <= 400.0 {
                    let slot_is_content = got[slot] > 0.0 && (got[slot] - conf).abs() <= d;
                    let formant_is_content = got
                        .iter()
                        .zip(&last)
                        .any(|(&g, &c)| g == cand && (cand - c).abs() <= d);
                    assert!(slot_is_content || formant_is_content, "{raw:?} {last:?} {got:?}");
                }
            }
        }
    }
}

#[test]
fn frames_are_finite() {
    assert!(FormantFrame::new(four([1.0, f32::NAN, 0.0, 0.0])).is_none());
    assert!(FormantFrame::new(four([1.0, 0.0, 0.0, f32::INFINITY])).is_none());
    assert_eq!(hz(&FormantFrame::empty()), [0.0; 4]);
    assert_eq!(hz(&frame([1.0, 2.0, 3.0, 4.0])), [1.0, 2.0, 3.0, 4.0]);
}

#[test]
fn the_plot_drains_its_channel() {
    let (tx, rx) = crossbeam::channel::bounded::<FormantFrame>(16);
    let mut plot = FormantPlot::new(rx, 3);
    assert_eq!(plot.update(), 0);
    tx.send(frame([500.0, 1500.0, 0.0, 0.0])).unwrap();
    tx.send(frame([0.0; 4])).unwrap();
    tx.send(frame([1600.0, 0.0, 0.0, 0.0])).unwrap();
    tx.send(frame([520.0, 1480.0, 2600.0, 0.0])).unwrap();
    assert_eq!(plot.update(), 2);
    assert_eq!(plot.history.len(), 2);
    assert_eq!(hz(&plot.last_valid), [520.0, 1480.0, 2600.0, 0.0]);
    for i in 0..4 {
        tx.send(frame([530.0 + i as f32, 0.0, 0.0, 0.0])).unwrap();
    }
    assert_eq!(plot.update(), 4);
    let shown: Vec<f32> = plot.history.iter().map(|f| float(f.get(0))).collect();
    assert_eq!(shown, vec![531.0, 532.0, 533.0]);
    drop(tx);
    assert_eq!(plot.update(), 0);
}

#[test]
fn a_history_without_room_keeps_one_frame() {
    let (_tx, rx) = crossbeam::channel::bounded::<FormantFrame>(1);
    let mut plot = FormantPlot::new(rx, 0);
    assert!(plot.record(frame([500.0, 0.0, 0.0, 0.0])));
    assert!(plot.record(frame([510.0, 0.0, 0.0, 0.0])));
    assert!(!plot.record(frame([0.0, 0.0, 0.0, 0.0])));
    assert_eq!(plot.history.len(), 1);
    assert_eq!(hz(&plot.history[0])[0], 510.0);
}

#[test]
fn points_skip_the_gaps() {
    let mut history: VecDeque<FormantFrame> = VecDeque::new();
    history.push_back(frame([500.0, 0.0, 0.0, 0.0]));
    history.push_back(frame([510.0, 1500.5, 0.0, 0.0]));
    history.push_back(frame([520.0, 0.0, 0.0, 0.0]));
    history.push_back(frame([530.0, 1510.0, 0.0, 0.0]));
    assert_eq!(places(&formant_points(&history, 1)), vec![(1.0, 1500.5), (3.0, 1510.0)]);
    assert_eq!(formant_points(&history, 0).len(), 4);
    assert_eq!(formant_points(&history, 3).len(), 0);
}

#[test]
fn labels_float_at_the_last_value() {
    let (_tx, rx) = crossbeam::channel::bounded::<FormantFrame>(1);
    let mut plot = FormantPlot::new(rx, 600);
    plot.record(frame([500.0, 1500.0, 0.0, 0.0]));
    let p = plot.label_position(1).unwrap();
    assert_eq!(places(&[p]), vec![(295.0, 1500.0)]);
    assert!(plot.label_position(2).is_none());
}

fn places(p: &[Position]) -> Vec<(f64, f64)> {
    p.iter().map(|p| (f64::from_bits(p.x.to_bits()), f64::from_bits(p.y.to_bits()))).collect()
}

fn dashes_by_hand(x_min: f64, x_max: f64, y: f64) -> Vec<(f64, f64)> {
    let mut pts = Vec::new();
    let mut x = x_min;
    while x < x_max {
        let seg_end = (x + 8.0).min(x_max);
        pts.push((x, y));
        pts.push((seg_end, y));
        pts.push((f64::NAN, f64::NAN));
        x = seg_end + 6.0;
    }
    pts
}

fn same_places(a: &[(f64, f64)], b: &[(f64, f64)]) -> bool {
    a.len() == b.len()
        && a.iter().zip(b).all(|(p, q)| {
            (p.0 == q.0 && p.1 == q.1) || (p.0.is_nan() && q.0.is_nan() && p.1.is_nan() && q.1.is_nan())
        })
}

#[test]
fn dashed_lines_have_dashes_and_gaps() {
    let line = places(&dashed_hline(double(0.0), double(20.0), double(7.5)));
    assert_eq!(line.len(), 6);
    assert_eq!((line[0], line[1]), ((0.0, 7.5), (8.0, 7.5)));
    assert_eq!((line[3], line[4]), ((14.0, 7.5), (20.0, 7.5)));
    assert!(line[2].0.is_nan() && line[5].1.is_nan());
    for (a, b) in [(0.0, 600.0), (-3.25, 100.1), (5.0, 5.0), (9.0, 1.0), (1.0e9, 1.0e9 + 100.0), (f64::NAN, 1.0)] {
        let got = places(&dashed_hline(double(a), double(b), double(1.0)));
        assert!(same_places(&got, &dashes_by_hand(a, b, 1.0)), "{a} {b}");
    }
}

#[test]
fn lanes_span_a_deviation_on_both_sides() {
    let band = formant_band((single(310.0), single(30.5)), (double(-1.0), double(40.0)));
    assert_eq!(
        places(&band.polygon),
        vec![(-1.0, 279.5), (40.0, 279.5), (40.0, 340.5), (-1.0, 340.5)]
    );
    assert_eq!(f64::from_bits(band.mean.to_bits()), 310.0);
    assert!(same_places(&places(&band.low), &dashes_by_hand(-1.0, 40.0, 279.5)));
    assert!(same_places(&places(&band.high), &dashes_by_hand(-1.0, 40.0, 340.5)));
    let slot = band_for_slot(target_for(Phoneme::A), 1, (double(0.0), double(600.0)));
    assert_eq!(
        places(&slot.polygon),
        vec![(0.0, 1230.0), (600.0, 1230.0), (600.0, 1470.0), (0.0, 1470.0)]
    );
}

#[test]
fn dashes_that_never_end_are_known() {
    for (a, b, want) in [
        (0.0, 600.0, true),
        (5.0, 5.0, true),
        (f64::INFINITY, f64::NEG_INFINITY, true),
        (f64::NAN, 1.0, true),
        (0.0, f64::INFINITY, false),
        (f64::NEG_INFINITY, 0.0, false),
        (-36028797018963964.0, 36028797018963964.0, true),
        (0.0, 36028797018963968.0, false),
        (1.0e300, 2.0e300, false),
    ] {
        assert_eq!(can_be_dashed((double(a), double(b))), want, "{a} {b}");
    }
}

#[test]
fn names_of_a_lane() {
    let names = band_names("F2");
    assert_eq!(names[0], "F2_polygon");
    assert_eq!(names[1], "F2_line_mean");
    assert_eq!(names[2], "F2_line_min");
    assert_eq!(names[3], "F2_line_max");
}

#[test]
fn a_plot_is_at_least_one_frame_wide() {
    for (len, width) in [(0usize, 1.0f64), (1, 1.0), (600, 600.0)] {
        let (a, b) = plot_range(len);
        assert_eq!(f64::from_bits(a.to_bits()), 0.0);
        assert_eq!(f64::from_bits(b.to_bits()), width);
    }
}

#[test]
fn lanes_span_what_is_visible() {
    let bounds = (double(-3.5), double(1200.0));
    let range = |follows: bool, len: usize| {
        let (a, b) = visible_range(follows, bounds, len);
        (f64::from_bits(a.to_bits()), f64::from_bits(b.to_bits()))
    };
    assert_eq!(range(false, 600), (-3.5, 1200.0));
    assert_eq!(range(true, 600), (0.0, 600.0));
    assert_eq!(range(true, 0), (0.0, 1.0));
}

#[test]
fn views_divide_the_formants() {
    assert_eq!(panels(ViewMode::Grouped), vec![vec![0, 1, 2, 3]]);
    assert_eq!(panels(ViewMode::Split), vec![vec![0], vec![1], vec![2], vec![3]]);
    assert!(ViewMode::default() == ViewMode::Grouped);
}

#[test]
fn labels_of_the_vowels() {
    let labels: Vec<&str> = Phoneme::ALL.iter().map(|p| p.label()).collect();
    assert_eq!(
        labels,
        vec!["/i/  (beet)", "/e/  (bait)", "/æ/  (bat)", "/ɑ/  (bot)", "/o/  (boat)", "/u/  (boot)"]
    );
    assert_eq!(FORMANT_LABELS, ["F1", "F2", "F3", "F4"]);
}

fn row(t: &FormantTarget) -> Vec<(f32, f32)> {
    (0..4).map(|i| (float(t.slot(i).0), float(t.slot(i).1))).collect()
}

#[test]
fn every_vowel_has_its_target() {
    assert_eq!(
        row(&target_for(Phoneme::I)),
        vec![(310.0, 30.0), (2790.0, 150.0), (3310.0, 150.0), (4200.0, 200.0)]
    );
    assert_eq!(
        row(&target_for(Phoneme::U)),
        vec![(330.0, 30.0), (850.0, 100.0), (2700.0, 150.0), (3600.0, 200.0)]
    );
    for (i, phoneme) in Phoneme::ALL.iter().enumerate() {
        assert_eq!(PHONEME_TARGETS[i].0, *phoneme);
        let want: Vec<(f32, f32)> =
            PHONEME_TARGETS[i].1.iter().map(|p| (p.0 as f32, p.1 as f32)).collect();
        assert_eq!(row(&target_for(*phoneme)), want);
    }
}

#[test]
fn a_vowel_is_chosen_by_a_click() {
    let mut selection = PhonemeSelection::default();
    assert!(selection.active.is_none());
    assert_eq!(selection.current_label(), "None");
    assert!(selection.target().is_none());
    selection.click(3, false);
    assert!(selection.is_selected(None));
    selection.click(3, true);
    assert_eq!(selection.active, Some(Phoneme::Ae));
    assert_eq!(selection.current_label(), "/æ/  (bat)");
    assert!(selection.is_selected(Some(Phoneme::Ae)) && !selection.is_selected(None));
    assert!(!selection.is_selected(Some(Phoneme::A)));
    assert_eq!(row(&selection.target().unwrap())[0], (750.0, 45.0));
    selection.click(0, true);
    assert!(selection.active.is_none());
    selection.set(Some(Phoneme::O));
    assert_eq!(selection.active, Some(Phoneme::O));
    let offered: Vec<&str> = (0..CHOICES).map(|i| choice_label(choice(i))).collect();
    assert_eq!(offered[0], "None");
    assert_eq!(offered[6], "/u/  (boot)");
}

#[test]
fn updates_may_be_divided() {
    let frames: Vec<FormantFrame> = (0..9)
        .map(|i| frame([480.0 + 10.0 * i as f32, if i % 3 == 0 { 0.0 } else { 1500.0 }, 0.0, 0.0]))
        .collect();
    let (tx, rx) = crossbeam::channel::bounded::<FormantFrame>(16);
    let (tx2, rx2) = crossbeam::channel::bounded::<FormantFrame>(16);
    let mut once = FormantPlot::new(rx, 5);
    let mut twice = FormantPlot::new(rx2, 5);
    for f in &frames {
        tx.send(*f).unwrap();
    }
    let total = once.update();
    let mut parts = 0;
    for piece in frames.chunks(4) {
        for f in piece {
            tx2.send(*f).unwrap();
        }
        parts += twice.update();
    }
    assert_eq!(total, parts);
    let shown = |p: &FormantPlot| p.history.iter().map(hz).collect::<Vec<_>>();
    assert_eq!(shown(&once), shown(&twice));
    assert_eq!(once.history.len(), 5);
    assert_eq!(hz(&once.history[4]), hz(&once.last_valid));
    assert_eq!(hz(&once.history[0])[0], 520.0);
}

#[test]
fn after_silence_every_formant_lies_in_its_range() {
    let out = assigned([300.0, 1000.0, 2499.0, 4499.0], [0.0; 4]);
    assert_eq!(out, [300.0, 1000.0, 0.0, 4499.0]);
}
