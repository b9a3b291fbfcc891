//! Ordered dot products: accumulation order, separate rounding, short rows.

use tuneout_resampler::arithmetic::Arithmetic;
use tuneout_resampler::kernels::{
    convolve_interpolated_stereo, convolve_phase, convolve_stereo_batch, pack_phase_tile,
};

/// Plain binary64 arithmetic.
struct Binary64;

impl Arithmetic for Binary64 {
    fn plus(&self, a: u64, b: u64) -> u64 {
        (f64::from_bits(a) + f64::from_bits(b)).to_bits()
    }

    fn minus(&self, a: u64, b: u64) -> u64 {
        (f64::from_bits(a) - f64::from_bits(b)).to_bits()
    }

    fn times(&self, a: u64, b: u64) -> u64 {
        (f64::from_bits(a) * f64::from_bits(b)).to_bits()
    }

    fn over(&self, a: u64, b: u64) -> u64 {
        (f64::from_bits(a) / f64::from_bits(b)).to_bits()
    }

    fn root(&self, a: u64) -> u64 {
        f64::from_bits(a).sqrt().to_bits()
    }

    fn less(&self, a: u64, b: u64) -> bool {
        f64::from_bits(a) < f64::from_bits(b)
    }

    fn larger(&self, a: u64, b: u64) -> u64 {
        f64::from_bits(a).max(f64::from_bits(b)).to_bits()
    }

    fn nearest(&self, a: u64) -> u64 {
        f64::from_bits(a).round().to_bits()
    }

    fn as_integer(&self, a: u64) -> i64 {
        f64::from_bits(a) as i64
    }

    fn of_integer(&self, n: i64) -> u64 {
        (n as f64).to_bits()
    }

    fn promote(&self, sample: u32) -> u64 {
        f64::from(f32::from_bits(sample)).to_bits()
    }

    fn narrow(&self, sample: u64) -> u32 {
        (f64::from_bits(sample) as f32).to_bits()
    }
}

fn bits(values: &[f64]) -> Vec<u64> {
    values.iter().map(|value| value.to_bits()).collect()
}

fn batch(samples: [&[f64]; 4], coeffs: [&[f64]; 4]) -> [u64; 8] {
    let samples: [Vec<u64>; 4] = std::array::from_fn(|i| bits(samples[i]));
    let coeffs: [Vec<u64>; 4] = std::array::from_fn(|i| bits(coeffs[i]));
    convolve_stereo_batch(
        &Binary64,
        std::array::from_fn(|i| samples[i].as_slice()),
        std::array::from_fn(|i| coeffs[i].as_slice()),
    )
}

fn assert_batch_bits(samples: [&[f64]; 4], coeffs: [&[f64]; 4]) {
    let taps = (0..4)
        .map(|i| coeffs[i].len().min(samples[i].len() / 2))
        .min()
        .unwrap_or(0);
    let mut expected = [0.0f64; 8];
    for tap in 0..taps {
        for frame in 0..4 {
            for ch in 0..2 {
                expected[frame * 2 + ch] += samples[frame][tap * 2 + ch] * coeffs[frame][tap];
            }
        }
    }
    assert_eq!(batch(samples, coeffs), expected.map(f64::to_bits));
}

#[test]
fn stereo_simd_preserves_accumulation_order_and_separate_rounding() {
    // A reassociated sum can produce 2 instead of 1 in the first row.
    let cancellation = [1e16, -1e16, 1., -1., -1e16, 1e16, 1., -1.];
    let ones = [1.; 4];
    assert_batch_bits([&cancellation; 4], [&ones; 4]);
    let actual = batch([&cancellation; 4], [&ones; 4]);
    assert_eq!([actual[0], actual[1]], [1.0f64.to_bits(), (-1.0f64).to_bits()]);

    // Fusing the second multiply/add produces -2^-54 instead of zero.
    let delta = 2.0f64.powi(-27);
    let input = [-1., -1., 1. + delta, 1. + delta];
    let coeffs = [1., 1. - delta];
    assert_batch_bits([&input; 4], [&coeffs; 4]);
    let actual = batch([&input; 4], [&coeffs; 4]);
    assert_eq!([actual[0], actual[1]], [0.0f64.to_bits(); 2]);
}

#[test]
fn stereo_simd_handles_empty_short_and_unaligned_rows() {
    let samples: Vec<f64> = (0..66).map(|i| (i as f64 - 31.) / 67.).collect();
    let coeffs: Vec<f64> = (0..33).map(|i| (17. - i as f64) / 37.).collect();
    for taps in 0..=31 {
        for offset in 0..2 {
            for shorter in 0..4 {
                let mut inputs = [&samples[offset..offset + taps * 2]; 4];
                let mut weights = [&coeffs[offset..offset + taps]; 4];
                inputs[shorter] = &samples[offset..offset + taps];
                assert_batch_bits(inputs, weights);
                weights[(shorter + 1) % 4] = &coeffs[..taps / 2];
                assert_batch_bits(inputs, weights);
            }
        }
    }
}

#[test]
fn stereo_simd_preserves_subnormal_and_signed_zero_results() {
    let tiny = f64::from_bits(1);
    let samples = [
        -0.,
        0.,
        tiny,
        -tiny,
        f64::MIN_POSITIVE,
        -f64::MIN_POSITIVE,
        tiny,
        tiny,
    ];
    let coeffs = [1., 1., 0.5, -0.5];
    assert_batch_bits([&samples; 4], [&coeffs; 4]);
}

#[test]
fn stereo_simd_matches_long_random_dot_products() {
    let mut state = 0x19a26b3d9e50a401u64;
    let mut next = || {
        state ^= state << 13;
        state ^= state >> 7;
        state ^= state << 17;
        (state as i64 as f64) / i64::MAX as f64
    };
    for taps in [1, 3, 7, 16, 17, 511, 2047, 4095, 65535] {
        let samples: [Vec<f64>; 4] =
            std::array::from_fn(|_| (0..taps * 2 + 1).map(|_| next()).collect());
        let coeffs: [Vec<f64>; 4] =
            std::array::from_fn(|_| (0..taps + 1).map(|_| next()).collect());
        assert_batch_bits(
            std::array::from_fn(|i| &samples[i][1..]),
            std::array::from_fn(|i| &coeffs[i][1..]),
        );
    }
}

fn interpolated(
    samples: [&[f64]; 4],
    lower: [&[f64]; 4],
    upper: [&[f64]; 4],
    blends: [f64; 4],
) -> [u64; 8] {
    let samples: [Vec<u64>; 4] = std::array::from_fn(|i| bits(samples[i]));
    let lower: [Vec<u64>; 4] = std::array::from_fn(|i| bits(lower[i]));
    let upper: [Vec<u64>; 4] = std::array::from_fn(|i| bits(upper[i]));
    convolve_interpolated_stereo(
        &Binary64,
        std::array::from_fn(|i| samples[i].as_slice()),
        std::array::from_fn(|i| lower[i].as_slice()),
        std::array::from_fn(|i| upper[i].as_slice()),
        blends.map(f64::to_bits),
    )
}

fn check_kernels(samples: [&[f64]; 4], lower: [&[f64]; 4], upper: [&[f64]; 4], blends: [f64; 4]) {
    let taps = (0..4)
        .map(|i| lower[i].len().min(upper[i].len()).min(samples[i].len() / 2))
        .min()
        .unwrap_or(0);
    let mut sums = [0.0f64; 8];
    for tap in 0..taps {
        for frame in 0..4 {
            let c0 = lower[frame][tap];
            let coefficient = c0 + (upper[frame][tap] - c0) * blends[frame];
            sums[frame * 2] += samples[frame][tap * 2] * coefficient;
            sums[frame * 2 + 1] += samples[frame][tap * 2 + 1] * coefficient;
        }
    }
    assert_eq!(interpolated(samples, lower, upper, blends), sums.map(f64::to_bits));
}

#[test]
fn interpolation_and_accumulation_keep_separate_rounding() {
    let delta = 2.0f64.powi(-27);
    // Fusing coefficient interpolation would produce -2^-54 rather than zero.
    check_kernels([&[1., 1.]; 4], [&[-1.]; 4], [&[delta]; 4], [1. - delta; 4]);
    let output = interpolated([&[1., 1.]; 4], [&[-1.]; 4], [&[delta]; 4], [1. - delta; 4]);
    assert_eq!([output[0], output[1]], [0.0f64.to_bits(); 2]);
    // Fusing the dot product's second multiply/add would also produce -2^-54.
    check_kernels(
        [&[-1., -1., 1. + delta, 1. + delta]; 4],
        [&[1., 1. - delta]; 4],
        [&[1., 1. - delta]; 4],
        [0.3; 4],
    );
    check_kernels(
        [&[1e16, -1e16, 1., -1., -1e16, 1e16, 1., -1.]; 4],
        [&[1.; 4]; 4],
        [&[1.; 4]; 4],
        [0.7; 4],
    );
}

#[test]
fn interpolated_kernels_cover_unaligned_short_long_and_subnormal_inputs() {
    let mut state = 0x9e3c_2168_a4b1_570du64;
    let mut next = || {
        state ^= state << 13;
        state ^= state >> 7;
        state ^= state << 17;
        state as i64 as f64 / i64::MAX as f64
    };
    for taps in [0, 1, 2, 3, 7, 16, 17, 513, 1151, 8183, 16387] {
        let samples: [Vec<f64>; 4] =
            std::array::from_fn(|_| (0..taps * 2 + 1).map(|_| next()).collect());
        let lower: [Vec<f64>; 4] = std::array::from_fn(|_| (0..taps + 1).map(|_| next()).collect());
        let upper: [Vec<f64>; 4] = std::array::from_fn(|_| (0..taps + 1).map(|_| next()).collect());
        for offset in 0..=1 {
            for blends in [
                [0., 0.25, 0.75, 1.],
                [f64::from_bits(1), 0.123456789, 0.5, 1. - f64::EPSILON],
            ] {
                check_kernels(
                    std::array::from_fn(|i| &samples[i][offset..offset + taps * 2]),
                    std::array::from_fn(|i| &lower[i][offset..offset + taps]),
                    std::array::from_fn(|i| &upper[i][offset..offset + taps]),
                    blends,
                );
            }
        }
    }
    let tiny = f64::from_bits(1);
    check_kernels(
        [&[-0., 0., tiny, -tiny, f64::MIN_POSITIVE, -f64::MIN_POSITIVE]; 4],
        [&[1., 0.5, 1.]; 4],
        [&[1., -0.5, 0.]; 4],
        [0., 0.25, 0.5, 1.],
    );
}

#[test]
fn narrow_dot_products_preserve_rounding_cancellation_and_subnormals() {
    let delta = 2.0f64.powi(-27);
    let cases = [
        (
            vec![1e16, -1e16, 1., -1., -1e16, 1e16, 1., -1.],
            vec![1.; 8],
        ),
        (vec![-1., 1. + delta], vec![1., 1. - delta]),
        (
            vec![
                -0.,
                0.,
                f64::from_bits(1),
                -f64::from_bits(1),
                f64::MIN_POSITIVE,
            ],
            vec![1., -1., 1., 0.5, 0.5],
        ),
        (vec![], vec![]),
    ];
    for (values, weights) in cases {
        // Every lane has a separate dot product, including signs that expose
        // lane mix-ups.
        let mut storage = vec![0.0; 1 + values.len() * 16];
        for (tap, value) in values.iter().enumerate() {
            for lane in 0..16 {
                storage[1 + tap * 16 + lane] = if lane % 2 == 0 { *value } else { -*value };
            }
        }
        let samples = &storage[1..];
        let sums = convolve_phase(&Binary64, &bits(samples), &bits(&weights), 8);
        let mut reference = [0.0; 16];
        for tap in 0..weights.len() {
            for lane in 0..16 {
                reference[lane] += samples[tap * 16 + lane] * weights[tap];
            }
        }
        assert_eq!(sums, bits(&reference));
    }
}

#[test]
fn packed_rows_put_the_frames_of_all_periods_side_by_side() {
    // Frames 0..9, two rows of three periods that start three frames apart.
    let source: Vec<u64> = (0..20).collect();
    let packed = pack_phase_tile(&source, 2, 3, 3);
    assert_eq!(packed, [0, 1, 6, 7, 12, 13, 2, 3, 8, 9, 14, 15]);
}
