//! Coefficients at extended precision.

use tuneout_resampler::arithmetic::{
    multiply_add, roughness_blend, Arithmetic, ONE_BITS, ROUGHNESS_FULL_ODD_BITS,
    ROUGHNESS_SPAN_BITS, SILENCE_BITS, THREE_BITS, TWO_BITS, ZERO_BITS,
};
use tuneout_resampler::bank::TapPoint;
use tuneout_resampler::design::{select, BETA_BITS, ROLLOFF_BITS};
use tuneout_resampler::precision::{
    precise_coefficients, Series, NEGLIGIBLE_BITS, QUARTER_BITS,
};
use tuneout_resampler::wide::{Wide, PI_LEADING_BITS, PI_RESIDUAL_BITS, SIGN_BIT, SPLIT_BITS};
use tuneout_resampler::{FilterLength, FilterLengthPolicy};

/// Plain binary64 arithmetic.
struct Binary64;

impl Arithmetic for Binary64 {
    fn plus(&self, a: u64, b: u64) -> u64 {
        (f64::from_bits(a) + f64::from_bits(b)).to_bits()
    }

    fn minus(&self, a: u64, b: u64) -> u64 {
        (f64::from_bits(a) - f64::from_bits(b)).to_bits()
    }

    fn times(&self, a: u64, b: u64) -> u64 {
        (f64::from_bits(a) * f64::from_bits(b)).to_bits()
    }

    fn over(&self, a: u64, b: u64) -> u64 {
        (f64::from_bits(a) / f64::from_bits(b)).to_bits()
    }

    fn root(&self, a: u64) -> u64 {
        f64::from_bits(a).sqrt().to_bits()
    }

    fn less(&self, a: u64, b: u64) -> bool {
        f64::from_bits(a) < f64::from_bits(b)
    }

    fn larger(&self, a: u64, b: u64) -> u64 {
        f64::from_bits(a).max(f64::from_bits(b)).to_bits()
    }

    fn nearest(&self, a: u64) -> u64 {
        f64::from_bits(a).round().to_bits()
    }

    fn as_integer(&self, a: u64) -> i64 {
        f64::from_bits(a) as i64
    }

    fn of_integer(&self, n: i64) -> u64 {
        (n as f64).to_bits()
    }

    fn promote(&self, sample: u32) -> u64 {
        f64::from(f32::from_bits(sample)).to_bits()
    }

    fn narrow(&self, sample: u64) -> u32 {
        (f64::from_bits(sample) as f32).to_bits()
    }
}

/// Rate pair, phases, taps, phase, tap, and the bits of the coefficient, evaluated with
/// eighty decimal digits and rounded once.
const REFERENCE: [(u32, u32, usize, usize, usize, usize, u64); 168] = [
    (48000, 44100, 147, 1813, 0, 1, 0xbd3c35bde29ae462),
    (48000, 44100, 147, 1813, 0, 905, 0x3fb4931a520bb9be),
    (48000, 44100, 147, 1813, 0, 906, 0x3fed66666666664f),
    (48000, 44100, 147, 1813, 0, 907, 0x3fb4931a520bb9be),
    (48000, 44100, 147, 1813, 0, 1520, 0x3eb1ae047891cdc4),
    (48000, 44100, 147, 1813, 0, 1812, 0x0000000000000000),
    (48000, 44100, 147, 1813, 1, 1, 0xbd3bdf07d1379a6e),
    (48000, 44100, 147, 1813, 1, 735, 0xbf3dbe8ccd3965cc),
    (48000, 44100, 147, 1813, 1, 905, 0x3fb2e4e264afb708),
    (48000, 44100, 147, 1813, 1, 906, 0x3fed65ea98d5a91f),
    (48000, 44100, 147, 1813, 1, 907, 0x3fb6452b9ac490d8),
    (48000, 44100, 147, 1813, 1, 1812, 0x3c538826f21f9d6b),
    (48000, 44100, 147, 1813, 65, 1, 0xbd0ab63a7217e431),
    (48000, 44100, 147, 1813, 65, 905, 0xbfc8167839c53f03),
    (48000, 44100, 147, 1813, 65, 906, 0x3fe60b3b616d08f1),
    (48000, 44100, 147, 1813, 65, 907, 0x3fe23ef816e0ea9c),
    (48000, 44100, 147, 1813, 65, 1629, 0xbe78d358e866b80f),
    (48000, 44100, 147, 1813, 65, 1812, 0xbcd499064556265b),
    (48000, 44100, 147, 1813, 73, 1, 0xbcfa8162fb0776a0),
    (48000, 44100, 147, 1813, 73, 905, 0xbfc926b46b67f448),
    (48000, 44100, 147, 1813, 73, 906, 0x3fe4515ff7ea6c5a),
    (48000, 44100, 147, 1813, 73, 907, 0x3fe41807e77729cc),
    (48000, 44100, 147, 1813, 73, 1415, 0xbee98dfcfb317b4a),
    (48000, 44100, 147, 1813, 73, 1812, 0xbcf7acf0051c8862),
    (44100, 48000, 160, 1665, 0, 1, 0x8000000000000000),
    (44100, 48000, 160, 1665, 0, 60, 0x8000000000000000),
    (44100, 48000, 160, 1665, 0, 831, 0x8000000000000000),
    (44100, 48000, 160, 1665, 0, 832, 0x3ff0000000000000),
    (44100, 48000, 160, 1665, 0, 833, 0x0000000000000000),
    (44100, 48000, 160, 1665, 0, 1664, 0x0000000000000000),
    (44100, 48000, 160, 1665, 1, 1, 0xbce6c188f3249706),
    (44100, 48000, 160, 1665, 1, 831, 0xbf79706211c46a73),
    (44100, 48000, 160, 1665, 1, 832, 0x3fefff793f9a1e54),
    (44100, 48000, 160, 1665, 1, 833, 0x3f79c24d5b390b5c),
    (44100, 48000, 160, 1665, 1, 954, 0xbf05c1c356e7bba1),
    (44100, 48000, 160, 1665, 1, 1664, 0xbbfcba0434989bb5),
    (44100, 48000, 160, 1665, 80, 1, 0xbd2219025177138d),
    (44100, 48000, 160, 1665, 80, 831, 0xbfcb295d82b91825),
    (44100, 48000, 160, 1665, 80, 832, 0x3fe45f2bbab07157),
    (44100, 48000, 160, 1665, 80, 833, 0x3fe45f2bbab07157),
    (44100, 48000, 160, 1665, 80, 1590, 0xbe361b2011b6ee44),
    (44100, 48000, 160, 1665, 80, 1664, 0xbd2219025177138d),
    (44100, 48000, 160, 1665, 135, 1, 0xbcda6a88f8664ceb),
    (44100, 48000, 160, 1665, 135, 511, 0xbf1ad6f522e01d32),
    (44100, 48000, 160, 1665, 135, 831, 0xbfb4d545de8f874d),
    (44100, 48000, 160, 1665, 135, 832, 0x3fc6c350a3e9eac9),
    (44100, 48000, 160, 1665, 135, 833, 0x3feebaf38f45b5f1),
    (44100, 48000, 160, 1665, 135, 1664, 0xbd2884af85eddef7),
    (96000, 44100, 147, 3623, 0, 1, 0xbd0be975cb7cf9dc),
    (96000, 44100, 147, 3623, 0, 643, 0x3ec72d150cc5f582),
    (96000, 44100, 147, 3623, 0, 1810, 0x3fd434c1d0da0d76),
    (96000, 44100, 147, 3623, 0, 1811, 0x3fdd6666666665e6),
    (96000, 44100, 147, 3623, 0, 1812, 0x3fd434c1d0da0d76),
    (96000, 44100, 147, 3623, 0, 3622, 0x0000000000000000),
    (96000, 44100, 147, 3623, 1, 1, 0xbd0b8e75be6d3ca9),
    (96000, 44100, 147, 3623, 1, 464, 0x3e9042818c22d462),
    (96000, 44100, 147, 3623, 1, 1810, 0x3fd41807e6584ac7),
    (96000, 44100, 147, 3623, 1, 1811, 0x3fdd664772e4de38),
    (96000, 44100, 147, 3623, 1, 1812, 0x3fd4515ff6d0240f),
    (96000, 44100, 147, 3623, 1, 3622, 0xbc039dd31e3e2fe5),
    (96000, 44100, 147, 3623, 13, 1, 0xbd07453026b674e1),
    (96000, 44100, 147, 3623, 13, 1523, 0x3f48c7da07db68f6),
    (96000, 44100, 147, 3623, 13, 1810, 0x3fd2b7702cee02ee),
    (96000, 44100, 147, 3623, 13, 1811, 0x3fdd51fbe1a0e366),
    (96000, 44100, 147, 3623, 13, 1812, 0x3fd59fc1ad77f800),
    (96000, 44100, 147, 3623, 13, 3622, 0xbc83382e590adf7c),
    (96000, 44100, 147, 3623, 73, 1, 0xbce705bb989ea086),
    (96000, 44100, 147, 3623, 73, 1810, 0x3fc6a2cbf7207f52),
    (96000, 44100, 147, 3623, 73, 1811, 0x3fdaf2732fbc56b2),
    (96000, 44100, 147, 3623, 73, 1812, 0x3fdae195e4d48f8d),
    (96000, 44100, 147, 3623, 73, 1922, 0x3f5ee4a65645d55d),
    (96000, 44100, 147, 3623, 73, 3622, 0xbce63eb226668e2e),
    (44100, 96000, 320, 1665, 0, 1, 0x8000000000000000),
    (44100, 96000, 320, 1665, 0, 780, 0x8000000000000000),
    (44100, 96000, 320, 1665, 0, 831, 0x8000000000000000),
    (44100, 96000, 320, 1665, 0, 832, 0x3ff0000000000000),
    (44100, 96000, 320, 1665, 0, 833, 0x0000000000000000),
    (44100, 96000, 320, 1665, 0, 1664, 0x0000000000000000),
    (44100, 96000, 320, 1665, 1, 1, 0xbcd6e70108f3ffda),
    (44100, 96000, 320, 1665, 1, 831, 0xbf6984fc7d86811a),
    (44100, 96000, 320, 1665, 1, 832, 0x3fefffde4fc69c2d),
    (44100, 96000, 320, 1665, 1, 833, 0x3f69adf254f95bd1),
    (44100, 96000, 320, 1665, 1, 1114, 0xbecd59371c079b28),
    (44100, 96000, 320, 1665, 1, 1664, 0xbbccb9c1cbc1db7b),
    (44100, 96000, 320, 1665, 126, 1, 0xbd29359e1e7e1a97),
    (44100, 96000, 320, 1665, 126, 209, 0xbea73e2fc807d2ee),
    (44100, 96000, 320, 1665, 126, 831, 0xbfcb9e6eaa21b1e5),
    (44100, 96000, 320, 1665, 126, 832, 0x3fe870edcc7bbba4),
    (44100, 96000, 320, 1665, 126, 833, 0x3fdfbf8866562204),
    (44100, 96000, 320, 1665, 126, 1664, 0xbd1525d03c695777),
    (44100, 96000, 320, 1665, 160, 1, 0xbd2219025177138d),
    (44100, 96000, 320, 1665, 160, 831, 0xbfcb295d82b91825),
    (44100, 96000, 320, 1665, 160, 832, 0x3fe45f2bbab07157),
    (44100, 96000, 320, 1665, 160, 833, 0x3fe45f2bbab07157),
    (44100, 96000, 320, 1665, 160, 1176, 0xbf256350853992d9),
    (44100, 96000, 320, 1665, 160, 1664, 0xbd2219025177138d),
    (48000, 32000, 2, 2497, 0, 1, 0xbd22a8909e63838f),
    (48000, 32000, 2, 2497, 0, 54, 0x8000000000000000),
    (48000, 32000, 2, 2497, 0, 1247, 0x3fd1a475429b7f1f),
    (48000, 32000, 2, 2497, 0, 1248, 0x3fe55555555554fe),
    (48000, 32000, 2, 2497, 0, 1249, 0x3fd1a475429b7f1f),
    (48000, 32000, 2, 2497, 0, 2496, 0x0000000000000000),
    (48000, 32000, 2, 2497, 1, 1, 0xbd027e2eaec24502),
    (48000, 32000, 2, 2497, 1, 888, 0x3f35d73e1ae53a93),
    (48000, 32000, 2, 2497, 1, 1247, 0x8000000000000000),
    (48000, 32000, 2, 2497, 1, 1248, 0x3fe1a47aafd2d7a5),
    (48000, 32000, 2, 2497, 1, 1249, 0x3fe1a47aafd2d7a5),
    (48000, 32000, 2, 2497, 1, 2496, 0xbd027e2eaec24502),
    (8000, 11025, 441, 1279, 0, 1, 0x8000000000000000),
    (8000, 11025, 441, 1279, 0, 573, 0x8000000000000000),
    (8000, 11025, 441, 1279, 0, 638, 0x8000000000000000),
    (8000, 11025, 441, 1279, 0, 639, 0x3ff0000000000000),
    (8000, 11025, 441, 1279, 0, 640, 0x0000000000000000),
    (8000, 11025, 441, 1279, 0, 1278, 0x0000000000000000),
    (8000, 11025, 441, 1279, 1, 1, 0x3ce285b032cf5eb0),
    (8000, 11025, 441, 1279, 1, 373, 0x3eb86edf2ea98655),
    (8000, 11025, 441, 1279, 1, 638, 0xbf628888ac90da58),
    (8000, 11025, 441, 1279, 1, 639, 0x3fefffee430dae94),
    (8000, 11025, 441, 1279, 1, 640, 0x3f629e19d9b46d7e),
    (8000, 11025, 441, 1279, 1, 1278, 0x3bc839b84c30070e),
    (8000, 11025, 441, 1279, 208, 1, 0x3d36537e2c569c37),
    (8000, 11025, 441, 1279, 208, 638, 0xbfcb9311694ed85d),
    (8000, 11025, 441, 1279, 208, 639, 0x3fe582aaf9093626),
    (8000, 11025, 441, 1279, 208, 640, 0x3fe333d1282b8f26),
    (8000, 11025, 441, 1279, 208, 798, 0x3f51d1ad8d300445),
    (8000, 11025, 441, 1279, 208, 1278, 0x3d31c1cefa5cb157),
    (8000, 11025, 441, 1279, 220, 1, 0x3d342576d1471635),
    (8000, 11025, 441, 1279, 220, 327, 0x3f163cd183b83660),
    (8000, 11025, 441, 1279, 220, 638, 0xbfcb2e6d9b5f51e6),
    (8000, 11025, 441, 1279, 220, 639, 0x3fe46afa4880ca0a),
    (8000, 11025, 441, 1279, 220, 640, 0x3fe453536e7a37bf),
    (8000, 11025, 441, 1279, 220, 1278, 0x3d33f67e052684d9),
    (192000, 48000, 1, 6657, 0, 1, 0xbcd96c6cb88a5008),
    (192000, 48000, 1, 6657, 0, 1137, 0xbeac517b2040dab4),
    (192000, 48000, 1, 6657, 0, 3327, 0x3fcccf6280622be9),
    (192000, 48000, 1, 6657, 0, 3328, 0x3fcfffffffffff6d),
    (192000, 48000, 1, 6657, 0, 3329, 0x3fcccf6280622be9),
    (192000, 48000, 1, 6657, 0, 6656, 0x0000000000000000),
    (192000, 48000, 1, 6657, 1, 1, 0x0000000000000000),
    (192000, 48000, 1, 6657, 1, 3327, 0x3fc45f2bbab071af),
    (192000, 48000, 1, 6657, 1, 3328, 0x3fcccf6280622be9),
    (192000, 48000, 1, 6657, 1, 3329, 0x3fcfffffffffff6d),
    (192000, 48000, 1, 6657, 1, 5063, 0xbee64a89e053d565),
    (192000, 48000, 1, 6657, 1, 6656, 0xbcd96c6cb88a5008),
    (22050, 24000, 160, 1665, 0, 1, 0x8000000000000000),
    (22050, 24000, 160, 1665, 0, 831, 0x8000000000000000),
    (22050, 24000, 160, 1665, 0, 832, 0x3ff0000000000000),
    (22050, 24000, 160, 1665, 0, 833, 0x0000000000000000),
    (22050, 24000, 160, 1665, 0, 912, 0x0000000000000000),
    (22050, 24000, 160, 1665, 0, 1664, 0x0000000000000000),
    (22050, 24000, 160, 1665, 1, 1, 0xbce6c188f3249706),
    (22050, 24000, 160, 1665, 1, 260, 0x3e6cddbc0aff43cc),
    (22050, 24000, 160, 1665, 1, 831, 0xbf79706211c46a73),
    (22050, 24000, 160, 1665, 1, 832, 0x3fefff793f9a1e54),
    (22050, 24000, 160, 1665, 1, 833, 0x3f79c24d5b390b5c),
    (22050, 24000, 160, 1665, 1, 1664, 0xbbfcba0434989bb5),
    (22050, 24000, 160, 1665, 80, 1, 0xbd2219025177138d),
    (22050, 24000, 160, 1665, 80, 271, 0xbecd5cc0a4eb6109),
    (22050, 24000, 160, 1665, 80, 831, 0xbfcb295d82b91825),
    (22050, 24000, 160, 1665, 80, 832, 0x3fe45f2bbab07157),
    (22050, 24000, 160, 1665, 80, 833, 0x3fe45f2bbab07157),
    (22050, 24000, 160, 1665, 80, 1664, 0xbd2219025177138d),
    (22050, 24000, 160, 1665, 158, 1, 0xbc2cb9d38ea31ccb),
    (22050, 24000, 160, 1665, 158, 4, 0x3d2b96c0fa1fe4b0),
    (22050, 24000, 160, 1665, 158, 831, 0xbf79c0c18bbeca38),
    (22050, 24000, 160, 1665, 158, 832, 0x3f89eac2a068fa42),
    (22050, 24000, 160, 1665, 158, 833, 0x3feffde50663414e),
    (22050, 24000, 160, 1665, 158, 1664, 0xbcf6766ad7efe62a),
];

fn bank(from: u32, to: u32) -> (usize, usize, Vec<f64>) {
    let design = select(
        from,
        to,
        FilterLength::Standard,
        FilterLengthPolicy::Generic,
    )
    .unwrap();
    let bits = precise_coefficients(&Binary64, from, to, design);
    (
        design.phases,
        design.taps,
        bits.into_iter().map(f64::from_bits).collect(),
    )
}

#[test]
fn coefficients_match_independent_high_precision_reference() {
    let mut previous = (0, 0);
    let mut current = (0, 0, Vec::new());
    for (from, to, phases, taps, phase, tap, expected) in REFERENCE {
        if (from, to) != previous {
            current = bank(from, to);
            previous = (from, to);
        }
        assert_eq!((current.0, current.1), (phases, taps));
        let actual = current.2[phase * taps + tap];
        if f64::from_bits(expected) == 0.0 {
            // The real-valued reference has no sign for exact zero.
            assert_eq!(actual, 0.0, "{from}->{to} {phase} {tap}");
        } else {
            assert_eq!(actual.to_bits(), expected, "{from}->{to} {phase} {tap}");
        }
    }
}

#[test]
fn precise_banks_are_symmetric_exact_and_normalized() {
    for (from, to) in [(44_100, 48_000), (48_000, 44_100), (32_000, 96_000)] {
        let (phases, taps, coefficients) = bank(from, to);
        for row in coefficients.chunks_exact(taps) {
            assert!((row.iter().sum::<f64>() - 1.0).abs() < 1e-12);
        }
        for phase in 1..phases {
            for tap in 1..taps {
                assert_eq!(
                    coefficients[phase * taps + tap],
                    coefficients[(phases - phase + 1) * taps - tap]
                );
            }
        }
        if from < to {
            for (tap, &coefficient) in coefficients[..taps].iter().enumerate() {
                assert_eq!(coefficient, if tap == taps / 2 { 1.0 } else { 0.0 });
            }
        }
    }
}

#[test]
fn constants_have_the_bits_of_their_values() {
    assert_eq!(ZERO_BITS, 0.0f64.to_bits());
    assert_eq!(ONE_BITS, 1.0f64.to_bits());
    assert_eq!(TWO_BITS, 2.0f64.to_bits());
    assert_eq!(THREE_BITS, 3.0f64.to_bits());
    assert_eq!(QUARTER_BITS, 0.25f64.to_bits());
    assert_eq!(ROUGHNESS_FULL_ODD_BITS, 0.40f64.to_bits());
    assert_eq!(ROUGHNESS_SPAN_BITS, (0.80f64 - 0.40).to_bits());
    assert_eq!(SILENCE_BITS, 1e-12f64.to_bits());
    assert_eq!(NEGLIGIBLE_BITS, 1e-33f64.to_bits());
    assert_eq!(SPLIT_BITS, 134_217_729.0f64.to_bits());
    assert_eq!(PI_LEADING_BITS, std::f64::consts::PI.to_bits());
    assert_eq!(PI_RESIDUAL_BITS, 1.224_646_799_147_353_2e-16f64.to_bits());
    assert_eq!(SIGN_BIT, (-0.0f64).to_bits());
    assert_eq!(BETA_BITS, 20.0f64.to_bits());
    assert_eq!(ROLLOFF_BITS, 1.0f64.to_bits());
}

fn wide(hi: f64, lo: f64) -> Wide {
    Wide {
        hi: hi.to_bits(),
        lo: lo.to_bits(),
    }
}

#[test]
fn wide_values_keep_what_rounding_loses() {
    let tiny = 2.0f64.powi(-60);
    assert_eq!(
        Wide::exact_sum(&Binary64, 1.0f64.to_bits(), tiny.to_bits()),
        wide(1.0, tiny)
    );
    let near = 1.0 + 2.0f64.powi(-30);
    assert_eq!(
        Wide::exact_product(&Binary64, near.to_bits(), near.to_bits()),
        wide(1.0 + 2.0f64.powi(-29), tiny)
    );
    let third = Wide::integer(&Binary64, 3).reciprocal(&Binary64);
    assert_eq!(third.hi, (1.0f64 / 3.0).to_bits());
    assert_eq!(third.lo, (2.0f64.powi(-54) / 3.0).to_bits());
    let one = third.times(&Binary64, Wide::integer(&Binary64, 3));
    assert_eq!(one.hi, 1.0f64.to_bits());
    let zero = third.minus(&Binary64, third);
    assert_eq!((zero.hi, zero.lo), (0, 0));
    assert_eq!(third.negated().negated(), third);
    let seven = Wide::integer(&Binary64, 3).plus(&Binary64, Wide::new(4.0f64.to_bits()));
    assert_eq!(seven, wide(7.0, 0.0));
    let half = Wide::integer(&Binary64, 3).over(&Binary64, Wide::integer(&Binary64, 6));
    assert_eq!(half, wide(0.5, 0.0));
}

#[test]
fn series_have_exact_values_where_they_are_known() {
    let series = Series::new(&Binary64);
    // A quarter of a turn, and whole half turns.
    let sine = |hi: f64| f64::from_bits(series.sin_pi(&Binary64, wide(hi, 0.0)).hi);
    assert_eq!(sine(0.5), 1.0);
    assert_eq!(sine(1.5), -1.0);
    assert_eq!(sine(-0.5), -1.0);
    assert_eq!(sine(3.0), 0.0);
    assert!((sine(1.0 / 6.0) - 0.5).abs() < 1e-16);
    let point = TapPoint {
        numerator: 1,
        remainder: 1,
        denominator: 2,
        negated: true,
    };
    let ratio = series.sin_pi_ratio(&Binary64, point);
    assert_eq!(f64::from_bits(ratio.hi), -1.0);
    // The series at one: the modified Bessel function of two, without its first two terms.
    let tail = f64::from_bits(series.tail(&Binary64, wide(1.0, 0.0)).hi);
    assert_eq!(tail, 0.279_585_302_336_067_27);
    assert_eq!(series.tail(&Binary64, wide(0.0, 0.0)).hi, 0);
}

#[test]
fn tails_blend_from_reflection_to_mirroring_with_their_roughness() {
    let blend = |window: &[f64]| {
        let bits = window.iter().map(|value| value.to_bits()).collect();
        f64::from_bits(roughness_blend(&Binary64, &bits))
    };
    assert_eq!(blend(&[0.5; 64]), 1.0);
    assert_eq!(blend(&[0.5, -0.5, 0.5, -0.5]), 0.0);
    // Differences of 0.6 around a level of one lie halfway.
    let halfway = blend(&[0.3, 0.9, 1.5, 0.9, 0.3, 0.9, 1.5, 0.9]);
    assert!(halfway > 0.4 && halfway < 0.8);
    assert_eq!(blend(&[0.0, 0.0, 0.0]), 1.0);
}

#[test]
fn products_and_sums_are_rounded_separately() {
    let delta = 2.0f64.powi(-27);
    let sum = multiply_add(
        &Binary64,
        (-1.0f64).to_bits(),
        (1.0 + delta).to_bits(),
        (1.0 - delta).to_bits(),
    );
    assert_eq!(sum, 0.0f64.to_bits());
}

#[test]
fn ratios_of_integers_survive_powers_of_two() {
    let ratio = |a: i64, b: i64| {
        Wide::integer(&Binary64, a).over(&Binary64, Wide::integer(&Binary64, b))
    };
    let mut state = 0x9e37_79b9_7f4a_7c15_u64;
    for _ in 0..10_000 {
        state = state.wrapping_mul(6364136223846793005).wrapping_add(1442695040888963407);
        let b = (state >> 24) as i64 % (1 << 40) + 1;
        state = state.wrapping_mul(6364136223846793005).wrapping_add(1442695040888963407);
        let a = (state >> 24) as i64 % (b + 1);
        for factor in [1, 2, 4, 8] {
            assert_eq!(ratio(a * factor, b * factor), ratio(a, b));
        }
    }
}
