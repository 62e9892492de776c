use voxxy::audio::{
    enqueue_first_channel, ChunkBuffer, ResamplerCfg, CD_SAMPLE_RATE,
};
use voxxy::float::Single;
use voxxy::framer::LpcFramer;
use voxxy::lpc::{
    hamming_angle, hamming_window_coefficient, is_voiced, lpc_autocorrelate_arr,
    lpc_levinson_durbin_arr, lpc_window_and_pre_emphasize_arr, FilterCoefficients, LpcPipeline,
    LPC_HOP_LEN, LPC_ORDER, LPC_WINDOW_LEN,
};

fn single(v: f32) -> Single {
    Single::from_bits(v.to_bits())
}

fn float(s: Single) -> f32 {
    f32::from_bits(s.to_bits())
}

fn floats(s: &[Single]) -> Vec<f32> {
    s.iter().map(|v| float(*v)).collect()
}

fn singles(s: &[f32]) -> Vec<Single> {
    s.iter().map(|v| single(*v)).collect()
}

fn voice(n: usize) -> Vec<f32> {
    (0..n)
        .map(|i| {
            let t = i as f32 / 16000.0;
            0.4 * (2.0 * std::f32::consts::PI * 500.0 * t).sin()
                + 0.2 * (2.0 * std::f32::consts::PI * 1500.0 * t).sin()
                + 0.01 * ((i * 7919 % 101) as f32 / 50.0 - 1.0)
        })
        .collect()
}

fn hamming(i: usize, n: usize) -> f32 {
    let angle = 2. * std::f32::consts::PI * i as f32 / (n as f32 - 1.);
    0.54 - (0.46 * f32::cos(angle))
}

fn window() -> [Single; LPC_WINDOW_LEN] {
    let mut w = [Single::zero(); LPC_WINDOW_LEN];
    for i in 0..LPC_WINDOW_LEN {
        w[i] = hamming_window_coefficient(single(float(hamming_angle(i, LPC_WINDOW_LEN)).cos()));
    }
    w
}

fn shaped_by_hand(x: &[f32]) -> Vec<f32> {
    let n = x.len();
    (0..n)
        .map(|i| {
            let e = if i == 0 { x[0] } else { x[i] - 0.97 * x[i - 1] };
            e * hamming(i, n)
        })
        .collect()
}

fn autocorrelation_by_hand(x: &[f32], order: usize) -> Vec<f32> {
    (0..=order)
        .map(|lag| {
            let mut sum = 0.0f32;
            for n in lag..x.len() {
                sum += x[n] * x[n - lag];
            }
            sum
        })
        .collect()
}

fn levinson_by_hand(r: &[f32], order: usize) -> (Vec<f32>, Vec<f32>) {
    let mut b: Vec<f32> = Vec::new();
    let mut a: Vec<f32> = Vec::new();
    let mut e = r[0];
    for i in 0..order {
        let mut sum = 0.0f32;
        for j in 0..i {
            sum += b[j] * r[i - j];
        }
        let k = -(r[i + 1] + sum) / e;
        let old = b.clone();
        for j in 0..i {
            b[j] = old[j] + k * old[i - 1 - j];
        }
        b.push(k);
        a.push(k);
        e *= 1.0 - k * k;
    }
    (b, a)
}

#[test]
fn window_coefficients_are_those_of_hamming() {
    for i in 0..LPC_WINDOW_LEN {
        assert_eq!(float(window()[i]).to_bits(), hamming(i, LPC_WINDOW_LEN).to_bits());
    }
    assert_eq!(float(hamming_window_coefficient(single(1.0))), 0.54 - 0.46);
    assert_eq!(float(hamming_angle(3, 7)), 2.0 * std::f32::consts::PI * 3.0 / 6.0);
}

#[test]
fn emphasis_and_window_shape_a_frame() {
    let x: [f32; 4] = [1.0, 2.0, -1.0, 0.5];
    let w: [f32; 4] = [1.0, 0.5, 2.0, 0.25];
    let mut out = [Single::zero(); 4];
    let xs: [Single; 4] = singles(&x).try_into().ok().unwrap();
    let ws: [Single; 4] = singles(&w).try_into().ok().unwrap();
    lpc_window_and_pre_emphasize_arr(&xs, &ws, &mut out);
    assert_eq!(
        floats(&out),
        vec![
            1.0,
            (2.0 - 0.97 * 1.0) * 0.5,
            (-1.0f32 - 0.97 * 2.0) * 2.0,
            (0.5f32 - 0.97 * -1.0) * 0.25
        ]
    );
}

#[test]
fn autocorrelation_of_a_short_frame() {
    let x: [Single; 4] = singles(&[1.0, 2.0, 3.0, 4.0]).try_into().ok().unwrap();
    let mut r = [single(-1.0); 3];
    lpc_autocorrelate_arr::<2, 4, 3>(&x, &mut r);
    assert_eq!(floats(&r), vec![30.0, 20.0, 11.0]);
    let mut long = [single(-1.0); 7];
    lpc_autocorrelate_arr::<6, 4, 7>(&x, &mut long);
    assert_eq!(floats(&long), vec![30.0, 20.0, 11.0, 4.0, 0.0, 0.0, 0.0]);
}

#[test]
fn levinson_durbin_of_a_first_order_process() {
    let r: [Single; 4] = singles(&[1.0, 0.5, 0.25, 0.125]).try_into().ok().unwrap();
    let mut b = [single(9.0); 3];
    let mut a = [single(9.0); 3];
    lpc_levinson_durbin_arr(&r, &mut b, &mut a);
    assert_eq!(floats(&b), vec![-0.5, 0.0, 0.0]);
    assert_eq!(floats(&a), vec![-0.5, 0.0, 0.0]);
}

#[test]
fn pipeline_matches_the_machine_bit_for_bit() {
    let samples = voice(LPC_WINDOW_LEN * 3);
    let mut pipeline: LpcPipeline<LPC_ORDER, LPC_WINDOW_LEN, 19> = LpcPipeline::default();
    assert_eq!(floats(&pipeline.filter_coeffs.b), vec![0.0; LPC_ORDER]);
    assert_eq!(floats(&pipeline.autocorrelation), vec![0.0; 19]);
    let w = window();
    for start in [0usize, 67, 400, 777] {
        let x = &samples[start..start + LPC_WINDOW_LEN];
        let xs: [Single; LPC_WINDOW_LEN] = singles(x).try_into().ok().unwrap();
        let shaped = shaped_by_hand(x);
        let r = autocorrelation_by_hand(&shaped, LPC_ORDER);
        let (want_b, want_a) = levinson_by_hand(&r, LPC_ORDER);
        {
            let (b, a) = pipeline.run_once(&xs, &w);
            assert_eq!(floats(b), want_b);
            assert_eq!(floats(a), want_a);
            assert_eq!(b[LPC_ORDER - 1].to_bits(), a[LPC_ORDER - 1].to_bits());
        }
        assert_eq!(floats(&pipeline.window), shaped);
        assert_eq!(floats(&pipeline.autocorrelation), r);
    }
}

#[test]
fn feedback_of_fewer_steps_is_a_prefix() {
    let r = autocorrelation_by_hand(&voice(200), 5);
    let r6: [Single; 6] = singles(&r).try_into().ok().unwrap();
    let mut few = (single(0.0), [single(0.0); 3], [single(0.0); 3]);
    let mut many = ([single(0.0); 5], [single(0.0); 5]);
    few.0 = r6[0];
    lpc_levinson_durbin_arr(&r6, &mut few.1, &mut few.2);
    lpc_levinson_durbin_arr(&r6, &mut many.0, &mut many.1);
    assert_eq!(floats(&many.1)[..3], floats(&few.2)[..]);
}

#[test]
fn estimate_fills_the_callers_buffer() {
    let mut filter: FilterCoefficients<2> = FilterCoefficients::default();
    let x: [Single; 3] = singles(&[2.0, 1.0, 0.0]).try_into().ok().unwrap();
    let mut r = [single(7.0); 3];
    let b = floats(filter.estimate(&x, &mut r).0);
    assert_eq!(floats(&r), vec![5.0, 2.0, 0.0]);
    assert_eq!(b, levinson_by_hand(&[5.0, 2.0, 0.0], 2).0);
    assert_eq!(floats(&filter.b), b);
}

#[test]
fn loudness_decides_about_voice() {
    let t = single(0.15);
    assert!(!is_voiced(&singles(&[0.0; 400]), t));
    assert!(!is_voiced(&singles(&[-0.0; 400]), single(0.0)));
    assert!(!is_voiced(&singles(&[0.15; 1]), t));
    assert!(is_voiced(&singles(&[0.1500001; 1]), t));
    assert!(is_voiced(&singles(&[0.3, -0.3, 0.3]), t));
    assert!(!is_voiced(&[], t));
    for n in [1usize, 50, 400] {
        let x = voice(n);
        let rms = (x.iter().map(|s| s * s).sum::<f32>() / n as f32).sqrt();
        assert_eq!(is_voiced(&singles(&x), single(rms)), false);
        assert_eq!(is_voiced(&singles(&x), single(f32::from_bits(rms.to_bits() - 1))), true);
    }
}

#[test]
fn frames_overlap_by_the_hop() {
    let mut framer = LpcFramer::new(4, 3);
    let samples: Vec<f32> = (0..11).map(|i| i as f32).collect();
    let frames = framer.push_and_maybe_analyze(&singles(&samples));
    let got: Vec<Vec<f32>> = frames.iter().map(|f| floats(f)).collect();
    assert_eq!(
        got,
        vec![vec![0.0, 1.0, 2.0, 3.0], vec![3.0, 4.0, 5.0, 6.0], vec![6.0, 7.0, 8.0, 9.0]]
    );
    assert_eq!(floats(&framer.accumulator), vec![9.0, 10.0]);
}

#[test]
fn deliveries_do_not_matter_to_frames() {
    let samples = singles(&voice(3000));
    let mut whole = LpcFramer::new(LPC_WINDOW_LEN, LPC_HOP_LEN);
    let at_once = whole.push_and_maybe_analyze_arr::<LPC_WINDOW_LEN>(&samples);
    assert_eq!(at_once.len(), (3000 - 400) / 67 + 1);
    let mut parts = LpcFramer::new(LPC_WINDOW_LEN, LPC_HOP_LEN);
    let mut frames: Vec<[Single; LPC_WINDOW_LEN]> = Vec::new();
    for piece in samples.chunks(371) {
        frames.extend(parts.push_and_maybe_analyze_arr::<LPC_WINDOW_LEN>(piece));
    }
    assert_eq!(frames.len(), at_once.len());
    for (k, frame) in frames.iter().enumerate() {
        assert_eq!(floats(frame), floats(&at_once[k]));
        assert_eq!(floats(frame), floats(&samples[67 * k..67 * k + 400]));
    }
    assert_eq!(floats(&parts.accumulator), floats(&whole.accumulator));
}

#[test]
fn a_hop_longer_than_the_window_skips_samples() {
    let mut framer = LpcFramer::new(2, 3);
    let frames = framer.push_and_maybe_analyze(&singles(&[0.0, 1.0, 2.0, 3.0]));
    assert_eq!(frames.len(), 1);
    assert_eq!(floats(&frames[0]), vec![0.0, 1.0]);
    assert_eq!(floats(&framer.accumulator), vec![3.0]);
}

#[test]
fn too_few_samples_make_no_frame() {
    let mut framer = LpcFramer::new(5, 2);
    assert_eq!(framer.push_and_maybe_analyze(&singles(&[1.0; 4])).len(), 0);
    assert_eq!(framer.accumulator.len(), 4);
    assert_eq!(framer.push_and_maybe_analyze(&singles(&[1.0])).len(), 1);
    assert_eq!(framer.accumulator.len(), 3);
}

#[test]
fn the_resampler_is_set_up_for_the_input() {
    let cfg = ResamplerCfg::for_input(CD_SAMPLE_RATE);
    assert_eq!((cfg.input_rate, cfg.target_rate, cfg.chunk_size), (44100, 16000, 1024));
}

#[test]
fn one_channel_goes_through_the_queue() {
    let q: &'static mut heapless::spsc::Queue<Single, 8> =
        Box::leak(Box::new(heapless::spsc::Queue::new()));
    let (mut tx, mut rx) = q.split();
    assert!(enqueue_first_channel(&mut tx, &singles(&[1.0, -1.0, 2.0, -2.0, 3.0])));
    assert!(enqueue_first_channel(&mut tx, &[]));
    // room for seven in all
    assert!(!enqueue_first_channel(&mut tx, &singles(&[4.0, 0.0, 5.0, 0.0, 6.0, 0.0, 7.0, 0.0, 8.0])));
    let mut buffer = ChunkBuffer::new(3);
    assert_eq!(floats(&buffer.fill(&mut rx).unwrap()), vec![1.0, 2.0, 3.0]);
    assert_eq!(floats(&buffer.fill(&mut rx).unwrap()), vec![4.0, 5.0, 6.0]);
    assert!(buffer.fill(&mut rx).is_none());
    assert_eq!(floats(&buffer.samples), vec![7.0]);
    assert!(buffer.fill(&mut rx).is_none());
    assert!(enqueue_first_channel(&mut tx, &singles(&[9.0, 0.0, 10.0])));
    assert_eq!(floats(&buffer.fill(&mut rx).unwrap()), vec![7.0, 9.0, 10.0]);
    assert!(buffer.samples.is_empty());
}

#[test]
fn chunks_of_no_samples_are_never_complete() {
    let mut buffer = ChunkBuffer::new(0);
    for i in 0..5 {
        assert!(buffer.push(single(i as f32)).is_none());
    }
    assert_eq!(buffer.samples.len(), 5);
}

#[test]
fn without_a_hop_samples_are_only_collected() {
    let mut framer = LpcFramer::new(3, 0);
    assert_eq!(framer.push_and_maybe_analyze(&singles(&[1.0, 2.0])).len(), 0);
    assert_eq!(floats(&framer.accumulator), vec![1.0, 2.0]);
}

fn correlated(x: [f32; 4]) -> Vec<f32> {
    let mut x_a = [single(7.0); 3];
    lpc_autocorrelate_arr::<2, 4, 3>(&x.map(single), &mut x_a);
    floats(&x_a)
}

#[test]
fn polarity_does_not_matter() {
    let x = [0.5f32, -1.25, 3.0, -0.0];
    assert_eq!(correlated(x), vec![10.8125, -4.375, 1.5]);
    assert_eq!(correlated(x.map(|v| -v)), correlated(x));
    assert_eq!(correlated([f32::INFINITY, 1.0, -1.0, 2.0])[0], f32::INFINITY);
}

#[test]
fn direction_does_not_matter_to_exact_sums() {
    let mut x = [0.5f32, -1.25, 3.0, 8.0];
    let forward = correlated(x);
    x.reverse();
    assert_eq!(forward, vec![74.8125, 19.625, -8.5]);
    assert_eq!(correlated(x), forward);
    assert!(forward.iter().all(|v| v.abs() <= forward[0]));
}

#[test]
fn silence_is_uncorrelated() {
    for x in [[0.0f32; 4], [-0.0; 4], [0.0, -0.0, -0.0, 0.0]] {
        let got: Vec<u32> = correlated(x).iter().map(|v| v.to_bits()).collect();
        assert_eq!(got, vec![0; 3]);
    }
}

#[test]
fn energy_of_a_frame() {
    assert_eq!(correlated([-3.0, 0.0, 0.0, 4.0])[0], 25.0);
    assert_eq!(correlated([-1.0e-22, 0.0, 0.0, 0.0])[0], 1.0e-44);
    // squares can be too small to be held
    assert_eq!(correlated([1.0e-30, -1.0e-25, 0.0, 0.0])[0], 0.0);
}

#[test]
fn rounding_decides_among_the_smallest_products() {
    let unit = f32::from_bits(1);
    let (a, b) = (0.99 * 2f32.powi(-75), 1.03 * 2f32.powi(-75));
    assert_eq!(correlated([a, b, a, b]), vec![2.0 * unit, 3.0 * unit, unit]);
    assert_eq!(correlated([4096.0, 1.0, 1.0, 0.0])[0], 16777216.0);
    assert_eq!(correlated([0.0, 1.0, 1.0, 4096.0])[0], 16777218.0);
}

#[test]
fn chunks_are_consecutive_blocks() {
    let q: &'static mut heapless::spsc::Queue<Single, 64> =
        Box::leak(Box::new(heapless::spsc::Queue::new()));
    let (mut tx, mut rx) = q.split();
    let mut buffer = ChunkBuffer::new(4);
    let mut chunks: Vec<Vec<f32>> = Vec::new();
    let stream: Vec<f32> = (0..50).map(|i| i as f32).collect();
    let mut sent = 0;
    for n in [0usize, 1, 2, 9, 0, 4, 17, 3, 3, 11] {
        for v in &stream[sent..sent + n] {
            assert!(enqueue_first_channel(&mut tx, &[single(*v)]));
        }
        sent += n;
        while let Some(chunk) = buffer.fill(&mut rx) {
            chunks.push(floats(&chunk));
        }
        let blocks: Vec<Vec<f32>> = stream[..sent].chunks_exact(4).map(|c| c.to_vec()).collect();
        assert_eq!(chunks, blocks);
        assert_eq!(floats(&buffer.samples), stream[sent / 4 * 4..sent].to_vec());
    }
    assert_eq!(sent, 50);
}

#[test]
fn the_normal_equations_are_solved() {
    let r = [8.0f32, 4.0, 5.0];
    let mut b = [Single::zero(); 2];
    let mut a = [Single::zero(); 2];
    lpc_levinson_durbin_arr::<2, 3>(&r.map(single), &mut b, &mut a);
    let b = b.map(float);
    assert_eq!(b, [-0.25, -0.5]);
    assert_eq!(a.map(float), [-0.5, -0.5]);
    assert_eq!(r[1] + b[0] * r[0] + b[1] * r[1], 0.0);
    assert_eq!(r[2] + b[0] * r[1] + b[1] * r[0], 0.0);
}

#[test]
fn no_other_prediction_leaves_less() {
    let x = [2.0f32, 2.0];
    let mut r = [Single::zero(); 2];
    lpc_autocorrelate_arr::<1, 2, 2>(&x.map(single), &mut r);
    assert_eq!(r.map(float), [8.0, 4.0]);
    let mut b = [Single::zero(); 1];
    let mut a = [Single::zero(); 1];
    lpc_levinson_durbin_arr::<1, 2>(&r, &mut b, &mut a);
    let left = |c: f32| -> f32 {
        let errors = [x[0], x[1] + c * x[0], c * x[1]];
        errors.iter().map(|e| e * e).sum()
    };
    let best = float(b[0]);
    assert_eq!(best, -0.5);
    assert_eq!(left(best), 6.0);
    for c in [-1.0f32, -0.75, -0.25, 0.0, 0.5] {
        assert!(left(c) > left(best));
    }
    assert!(float(a[0]).abs() < 1.0);
}
