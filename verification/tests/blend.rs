use rawfuse::blend::{blend_captures, normalize, BlendError, RawCapture};
use rawfuse::sample::{weighted_mean, Ratio, Sample};

fn cap(width: usize, pixels: Vec<u16>, black_level: u16, white_level: u32) -> RawCapture {
    RawCapture { width, pixels, black_level, white_level }
}

fn as_f64(q: Ratio) -> f64 {
    q.num as f64 / q.den as f64
}

#[test]
fn normalize_identity_at_ev_zero() {
    // EV 0 and no clipping: every pixel keeps its value (at scale 2^16).
    let c = cap(2, vec![100, 200, 300, 400], 50, 1000);
    let samples = normalize(&c, 50, 1000, 0);
    assert_eq!(samples.len(), 4);
    for (i, p) in [100u64, 200, 300, 400].iter().enumerate() {
        assert_eq!(samples[i].value, p * 65536);
        assert_eq!(samples[i].weight, 65536);
    }
}

#[test]
fn normalize_black_level_floor() {
    // A pixel at or below the black level is corrected to exactly the black
    // level, whatever the exposure offset.
    let c = cap(2, vec![30, 50, 60, 80], 50, 1000);
    let samples = normalize(&c, 50, 1000, 3);
    // Values: saturating subtraction clamps the first two at zero.
    assert_eq!(samples[0].value, 50 * 65536);
    assert_eq!(samples[1].value, 50 * 65536);
    // 60 - 50 = 10, divided by 2^3 and added back: (10 * 2^13) + 50 * 2^16.
    assert_eq!(samples[2].value, 10 * 8192 + 50 * 65536);
    assert_eq!(samples[3].value, 30 * 8192 + 50 * 65536);
    // Weight is the exposure factor 2^3 at scale 2^16.
    assert_eq!(samples[0].weight, 65536 * 8);
}

#[test]
fn normalize_saturated_block_excluded() {
    // One clipped pixel excludes the whole 2x2 block.
    let c = cap(2, vec![100, 1000, 100, 100], 0, 1000);
    let samples = normalize(&c, 0, 1000, 0);
    for s in samples.iter() {
        assert_eq!(s.weight, 0);
    }
}

#[test]
fn normalize_saturation_is_per_block() {
    // A 4x4 buffer holds four 2x2 blocks; one clipped pixel (index 10, in
    // the bottom-right block) excludes exactly that block's four pixels.
    let mut pixels: Vec<u16> = vec![100; 16];
    pixels[10] = 2000;
    let c = cap(4, pixels, 0, 1000);
    let samples = normalize(&c, 0, 1000, 0);
    let excluded: [usize; 4] = [10, 11, 14, 15];
    for i in 0..16 {
        if excluded.contains(&i) {
            assert_eq!(samples[i].weight, 0);
        } else {
            assert_eq!(samples[i].weight, 65536);
        }
    }
}

#[test]
fn weighted_mean_simple() {
    let samples = vec![Sample { value: 2 * 65536, weight: 65536 }];
    let q = weighted_mean(&samples).unwrap();
    assert_eq!(q.num, 2 * 65536 * 65536);
    assert_eq!(q.den, 65536 * 65536);
    assert_eq!(as_f64(q), 2.0);
}

#[test]
fn weighted_mean_all_excluded_is_none() {
    let samples = vec![
        Sample { value: 2 * 65536, weight: 0 },
        Sample { value: 7 * 65536, weight: 0 },
    ];
    assert_eq!(weighted_mean(&samples), None);
}

#[test]
fn blend_excluded_capture_contributes_nothing() {
    // Two captures at EV -2 and +2; only the -2 capture is saturated, so the
    // blend equals the +2 capture's normalized value exactly.
    let saturated = cap(2, vec![1200, 1200, 1200, 1200], 100, 1000);
    let clean = cap(2, vec![500, 500, 500, 500], 100, 1000);
    let out = blend_captures(&vec![saturated, clean], &vec![-2, 2]).unwrap();
    // Normalized value of the clean capture: (500 - 100)/4 + 100 = 200.
    let value_fx: u128 = 200 * 65536;
    assert_eq!(out.len(), 4);
    for q in out.iter() {
        assert_eq!(q.num * 65536, value_fx * q.den);
        assert_eq!(as_f64(*q), 200.0);
    }
}

#[test]
fn blend_single_capture_is_identity() {
    // Blending a one-element capture list returns exactly its normalized
    // values.
    let c = cap(2, vec![500, 600, 700, 800], 100, 1000);
    let out = blend_captures(&vec![c], &vec![0]).unwrap();
    for (i, p) in [500u128, 600, 700, 800].iter().enumerate() {
        let value_fx: u128 = p * 65536;
        assert_eq!(out[i].num * 65536, value_fx * out[i].den);
        assert_eq!(as_f64(out[i]), *p as f64);
    }
}

#[test]
fn blend_order_independent() {
    // Permuting the captures together with their exposure offsets yields an
    // identical output.
    let c1 = cap(2, vec![500, 500, 500, 500], 0, 1000);
    let c2 = cap(2, vec![600, 700, 800, 900], 0, 1000);
    let c3 = cap(2, vec![1500, 1500, 1500, 1500], 0, 1000);
    let a = blend_captures(&vec![c1.clone(), c2.clone(), c3.clone()], &vec![-2, 0, 2]).unwrap();
    let b = blend_captures(&vec![c3, c1, c2], &vec![2, -2, 0]).unwrap();
    assert_eq!(a, b);
}

#[test]
fn blend_three_captures_end_to_end() {
    // Three synthetic captures of one 2x2 block at EV -2, 0, +2; the third is
    // saturated and excluded. The exposure-weighted mean of the remaining
    // observations, (2000 * 0.25 + 500 * 1) / (0.25 + 1), is 800 exactly.
    let c1 = cap(2, vec![500, 500, 500, 500], 0, 1000);
    let c2 = cap(2, vec![500, 500, 500, 500], 0, 1000);
    let c3 = cap(2, vec![1500, 1500, 1500, 1500], 0, 1000);
    let out = blend_captures(&vec![c1, c2, c3], &vec![-2, 0, 2]).unwrap();
    assert_eq!(out.len(), 4);
    for q in out.iter() {
        assert_eq!(q.num, 800 * q.den);
        assert_eq!(as_f64(*q), 800.0);
    }
}

#[test]
fn blend_rejects_shape_mismatch() {
    let c1 = cap(2, vec![500, 500, 500, 500], 0, 1000);
    let c2 = cap(2, vec![500, 500, 500, 500, 500, 500, 500, 500], 0, 1000);
    // Differing pixel counts.
    assert_eq!(
        blend_captures(&vec![c1.clone(), c2], &vec![0, 0]),
        Err(BlendError::ShapeMismatch)
    );
    // Exposure list of the wrong length.
    assert_eq!(blend_captures(&vec![c1.clone()], &vec![0, 0]), Err(BlendError::ShapeMismatch));
    // No captures at all.
    assert_eq!(
        blend_captures(&Vec::<RawCapture>::new(), &Vec::<i32>::new()),
        Err(BlendError::ShapeMismatch)
    );
    // An odd row width is not a whole grid of 2x2 blocks.
    let odd = cap(3, vec![1, 2, 3, 4, 5, 6], 0, 1000);
    assert_eq!(blend_captures(&vec![odd], &vec![0]), Err(BlendError::ShapeMismatch));
}

#[test]
fn blend_rejects_all_samples_excluded() {
    let c = cap(2, vec![1500, 1500, 1500, 1500], 0, 1000);
    assert_eq!(blend_captures(&vec![c], &vec![0]), Err(BlendError::AllSamplesExcluded));
}
