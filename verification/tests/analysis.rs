use voxxy::analysis::Analyzer;
use voxxy::float::Single;
use voxxy::formants::{companion_matrix, lpc_extract_formants, pole_magnitude, Pole};
use voxxy::lpc::{hamming_angle, LPC_ORDER, LPC_WINDOW_LEN};
use voxxy::plot::FormantFrame;

fn single(v: f32) -> Single {
    Single::from_bits(v.to_bits())
}

fn float(s: Single) -> f32 {
    f32::from_bits(s.to_bits())
}

fn floats(s: &[Single]) -> Vec<f32> {
    s.iter().map(|v| float(*v)).collect()
}

fn hz(frame: &FormantFrame) -> Vec<f32> {
    (0..4).map(|i| float(frame.get(i))).collect()
}

fn pole(re: f32, im: f32) -> Pole {
    Pole {
        im: single(im),
        theta: single(im.atan2(re)),
        ln_magnitude: single(float(pole_magnitude(single(re), single(im))).ln()),
    }
}

/// The pole that resonates at a frequency, at a distance from the origin.
fn resonance(hz: f32, distance: f32) -> Pole {
    let theta = 2.0 * std::f32::consts::PI * hz / 16000.0;
    pole(distance * theta.cos(), distance * theta.sin())
}

fn frequency(p: &Pole, rate: u32) -> f32 {
    (float(p.theta) * rate as f32) / (2.0 * std::f32::consts::PI)
}

fn extracted(poles: &[Pole], room: usize) -> Vec<f32> {
    let mut out = vec![single(5.0); room];
    lpc_extract_formants(poles, &mut out, 16000, single(400.0));
    floats(&out)
}

#[test]
fn companion_matrix_of_a_short_filter() {
    let m = companion_matrix(&[single(2.0), single(-3.0), single(0.5)]);
    let rows: Vec<Vec<f32>> = m.iter().map(|r| floats(r)).collect();
    assert_eq!(
        rows,
        vec![vec![-2.0, 3.0, -0.5], vec![1.0, 0.0, 0.0], vec![0.0, 1.0, 0.0]]
    );
    assert_eq!(companion_matrix(&[]).len(), 0);
}

#[test]
fn eigenvalues_of_the_companion_matrix_are_the_poles() {
    // (z - 0.5)(z + 0.25) = z^2 - 0.25 z - 0.125
    let m = companion_matrix(&[single(-0.25), single(-0.125)]);
    let dense = nalgebra::DMatrix::from_fn(2, 2, |i, j| float(m[i][j]));
    let mut found: Vec<f32> = dense.schur().complex_eigenvalues().iter().map(|e| e.re).collect();
    found.sort_by(|a, b| a.partial_cmp(b).unwrap());
    assert!((found[0] + 0.25).abs() < 1e-5 && (found[1] - 0.5).abs() < 1e-5);
}

#[test]
fn magnitude_of_a_pole() {
    assert_eq!(float(pole_magnitude(single(3.0), single(-4.0))), 5.0);
    assert_eq!(float(pole_magnitude(single(0.3), single(0.7))), (0.3f32 * 0.3 + 0.7 * 0.7).sqrt());
}

#[test]
fn formants_come_out_ascending_and_padded() {
    let poles = [resonance(2500.0, 0.98), resonance(700.0, 0.97), resonance(1200.0, 0.99)];
    let mut want: Vec<f32> = poles.iter().map(|p| frequency(p, 16000)).collect();
    want.sort_by(|a, b| a.partial_cmp(b).unwrap());
    let mut padded = want.clone();
    padded.extend([0.0, 0.0]);
    assert_eq!(extracted(&poles, 5), padded);
    assert!((want[0] - 700.0).abs() < 0.5 && (want[2] - 2500.0).abs() < 0.5);
}

#[test]
fn the_lowest_formants_are_kept() {
    let poles = [resonance(3000.0, 0.99), resonance(2000.0, 0.99), resonance(1000.0, 0.99)];
    assert_eq!(
        extracted(&poles, 2),
        vec![frequency(&poles[2], 16000), frequency(&poles[1], 16000)]
    );
    assert_eq!(extracted(&poles, 1), vec![frequency(&poles[2], 16000)]);
    assert_eq!(extracted(&poles, 0), Vec::<f32>::new());
    assert_eq!(extracted(&[], 2), vec![0.0, 0.0]);
}

#[test]
fn spurious_poles_are_left_out() {
    let lower_half = pole(0.5, -0.8);
    let real = pole(0.9, 0.0);
    let too_low = resonance(249.0, 0.99);
    let too_high = resonance(7801.0, 0.99);
    let too_wide = resonance(1000.0, 0.9);
    let good = resonance(1000.0, 0.95);
    assert_eq!(
        extracted(&[lower_half, real, too_low, too_high, too_wide, good], 3),
        vec![frequency(&good, 16000), 0.0, 0.0]
    );
    // outside the unit circle the bandwidth is negative, and counts by its size
    let far_outside = resonance(1500.0, 1.1);
    assert_eq!(extracted(&[far_outside], 1), vec![0.0]);
    let just_outside = resonance(1500.0, 1.05);
    assert_eq!(extracted(&[just_outside], 1), vec![frequency(&just_outside, 16000)]);
    let not_a_number =
        Pole { im: single(1.0), theta: single(f32::NAN), ln_magnitude: single(0.0) };
    assert_eq!(extracted(&[not_a_number], 1), vec![0.0]);
}

#[test]
fn poles_far_outside_the_circle_are_no_formants() {
    // z^2 + 4 has the roots 2i and -2i
    let m = companion_matrix(&[single(0.0), single(4.0)]);
    let poles = poles_of(&m);
    assert_eq!(poles.len(), 2);
    let mut out = [single(9.0); 4];
    lpc_extract_formants(&poles, &mut out, 16000, single(400.0));
    assert_eq!(floats(&out), vec![0.0; 4]);
}

fn analyzer() -> Analyzer {
    let mut cosines = [Single::zero(); LPC_WINDOW_LEN];
    for i in 0..LPC_WINDOW_LEN {
        cosines[i] = single(float(hamming_angle(i, LPC_WINDOW_LEN)).cos());
    }
    Analyzer::new(16000, &cosines)
}

fn vowel() -> [Single; LPC_WINDOW_LEN] {
    let mut x = [Single::zero(); LPC_WINDOW_LEN];
    for i in 0..LPC_WINDOW_LEN {
        let t = i as f32 / 16000.0;
        let v = 0.4 * (2.0 * std::f32::consts::PI * 700.0 * t).sin()
            + 0.3 * (2.0 * std::f32::consts::PI * 1800.0 * t).sin()
            + 0.02 * ((i * 7919 % 101) as f32 / 50.0 - 1.0);
        x[i] = single(v);
    }
    x
}

fn poles_of(m: &Vec<Vec<Single>>) -> Vec<Pole> {
    let dense = nalgebra::DMatrix::from_fn(m.len(), m.len(), |i, j| float(m[i][j]));
    dense.schur().complex_eigenvalues().iter().map(|e| pole(e.re, e.im)).collect()
}

#[test]
fn a_vowel_has_its_formants() {
    let mut a = analyzer();
    let m = a.start(&vowel()).unwrap();
    assert_eq!(m.len(), LPC_ORDER);
    assert_eq!(floats(&m[0]), a.pipeline.filter_coeffs.b.iter().map(|c| -float(*c)).collect::<Vec<_>>());
    let poles = poles_of(&m);
    let frame = a.finish(Some(&poles));
    let got = hz(&frame);
    assert!(got.iter().any(|f| (f - 700.0).abs() < 40.0), "{got:?}");
    assert!(got.iter().any(|f| (f - 1800.0).abs() < 40.0), "{got:?}");
    assert_eq!(got, (0..4).map(|i| float(a.formants.get(i))).collect::<Vec<_>>());
}

#[test]
fn silence_repeats_the_formants_before() {
    let mut a = analyzer();
    assert!(a.start(&[Single::zero(); LPC_WINDOW_LEN]).is_none());
    assert_eq!(hz(&a.finish(None)), vec![0.0; 4]);
    let frame = a.finish(Some(&[resonance(1100.0, 0.99), resonance(600.0, 0.99)]));
    assert_eq!(hz(&a.finish(None)), hz(&frame));
    assert!(hz(&frame)[0] > 0.0 && hz(&frame)[1] > hz(&frame)[0] && hz(&frame)[2] == 0.0);
}

#[test]
fn reports_are_sent_until_the_channel_is_full() {
    let mut a = analyzer();
    let (mut tx, rx) = crossbeam::channel::bounded::<FormantFrame>(1);
    let (frame, accepted) = a.report(Some(&[resonance(900.0, 0.99)]), &mut tx);
    assert!(accepted);
    let (_, refused) = a.report(None, &mut tx);
    assert!(!refused);
    assert_eq!(hz(&rx.try_recv().unwrap()), hz(&frame));
    assert!(rx.try_recv().is_err());
    drop(rx);
    assert!(!a.report(None, &mut tx).1);
}

#[test]
fn reports_follow_the_latest_voice() {
    let first = [resonance(900.0, 0.99), resonance(500.0, 0.99)];
    let second = [
        resonance(3000.0, 0.99),
        resonance(2400.0, 0.99),
        resonance(1800.0, 0.99),
        resonance(1200.0, 0.99),
        resonance(600.0, 0.99),
    ];
    let mut a = analyzer();
    let mut reports: Vec<Vec<f32>> = Vec::new();
    let heard: [Option<&[Pole]>; 6] = [None, Some(&first), None, None, Some(&second), None];
    for poles in heard {
        reports.push(hz(&a.finish(poles)));
    }
    let early = extracted(&first, 4);
    let late = extracted(&second, 4);
    assert_eq!(late[0], frequency(&second[4], 16000));
    assert_eq!(
        reports,
        vec![vec![0.0; 4], early.clone(), early.clone(), early, late.clone(), late]
    );
}
