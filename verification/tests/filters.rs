//! Filter lengths, policies, and the layout of coefficient banks.

use std::cell::RefCell;
use std::sync::Arc;
use tuneout_resampler::arithmetic::Arithmetic;
use tuneout_resampler::backend::CpuFeatures;
use tuneout_resampler::bank::{coefficients, Kernel, TapPoint};
use tuneout_resampler::cache::BankKey;
use tuneout_resampler::design::Design;
use tuneout_resampler::host::Host;
use tuneout_resampler::precision::precise_coefficients;
use tuneout_resampler::{Error, FilterLength, FilterLengthPolicy, Resampler};

/// Plain binary64 arithmetic.
struct Binary64;

impl Arithmetic for Binary64 {
    fn plus(&self, a: u64, b: u64) -> u64 {
        (f64::from_bits(a) + f64::from_bits(b)).to_bits()
    }

    fn minus(&self, a: u64, b: u64) -> u64 {
        (f64::from_bits(a) - f64::from_bits(b)).to_bits()
    }

    fn times(&self, a: u64, b: u64) -> u64 {
        (f64::from_bits(a) * f64::from_bits(b)).to_bits()
    }

    fn over(&self, a: u64, b: u64) -> u64 {
        (f64::from_bits(a) / f64::from_bits(b)).to_bits()
    }

    fn root(&self, a: u64) -> u64 {
        f64::from_bits(a).sqrt().to_bits()
    }

    fn less(&self, a: u64, b: u64) -> bool {
        f64::from_bits(a) < f64::from_bits(b)
    }

    fn larger(&self, a: u64, b: u64) -> u64 {
        f64::from_bits(a).max(f64::from_bits(b)).to_bits()
    }

    fn nearest(&self, a: u64) -> u64 {
        f64::from_bits(a).round().to_bits()
    }

    fn as_integer(&self, a: u64) -> i64 {
        f64::from_bits(a) as i64
    }

    fn of_integer(&self, n: i64) -> u64 {
        (n as f64).to_bits()
    }

    fn promote(&self, sample: u32) -> u64 {
        f64::from(f32::from_bits(sample)).to_bits()
    }

    fn narrow(&self, sample: u64) -> u32 {
        (f64::from_bits(sample) as f32).to_bits()
    }
}

fn pairs() -> Vec<(u32, u32)> {
    let rates = [
        8_000, 11_025, 12_000, 16_000, 22_050, 24_000, 32_000, 44_100, 48_000, 88_200, 96_000,
        176_400, 192_000, 352_800, 384_000, 705_600, 768_000,
    ];
    let mut pairs: Vec<(u32, u32)> = rates
        .iter()
        .flat_map(|&from| rates.iter().map(move |&to| (from, to)))
        .collect();
    for rate in rates {
        for neighbor in [rate - 1, rate + 1] {
            pairs.extend([(rate, neighbor), (neighbor, rate)]);
        }
    }
    pairs.sort_unstable();
    pairs.dedup();
    pairs
}

/// A processor with every vector unit, and a short memory for banks.
struct Machine {
    make: fn(u32, u32, Design) -> Vec<u64>,
    banks: RefCell<Vec<(BankKey, Arc<Vec<u64>>)>>,
}

impl Machine {
    fn new(make: fn(u32, u32, Design) -> Vec<u64>) -> Self {
        Machine {
            make,
            banks: RefCell::new(Vec::new()),
        }
    }
}

impl Host for Machine {
    fn features(&self) -> CpuFeatures {
        CpuFeatures {
            avx512f: true,
            avx: true,
            neon: false,
        }
    }

    fn shared_coefficients(&self, from: u32, to: u32, design: Design) -> Arc<Vec<u64>> {
        let key = BankKey::new(from, to, design);
        let mut banks = self.banks.borrow_mut();
        if let Some((_, bank)) = banks.iter().find(|(known, _)| *known == key) {
            return bank.clone();
        }
        let bank = Arc::new((self.make)(from, to, design));
        if banks.len() == 4 {
            banks.remove(0);
        }
        banks.push((key, bank.clone()));
        bank
    }
}

/// Coefficients that cost little to make and differ from tap to tap.
fn scattered(_from: u32, _to: u32, design: Design) -> Vec<u64> {
    let scale = 1.0 / design.taps as f64 / 2_147_483_648.0;
    (0..((design.phases + 1) * design.taps) as u64)
        .map(|i| {
            let mixed = i.wrapping_mul(0x9e37_79b9_7f4a_7c15) >> 32;
            (mixed as u32 as i32 as f64 * scale).to_bits()
        })
        .collect()
}

/// The library's own coefficients.
fn precise(from: u32, to: u32, design: Design) -> Vec<u64> {
    precise_coefficients(&Binary64, from, to, design)
}

fn bits(values: &[f64]) -> Vec<u64> {
    values.iter().map(|value| value.to_bits()).collect()
}

fn with_length(
    machine: &Machine,
    from: u32,
    to: u32,
    channels: usize,
    length: FilterLength,
) -> Resampler {
    Resampler::with_filter_length(from, to, channels, length, machine)
        .ok()
        .unwrap()
}

fn with_policy(
    machine: &Machine,
    from: u32,
    to: u32,
    channels: usize,
    length: FilterLength,
    policy: FilterLengthPolicy,
) -> Resampler {
    Resampler::with_filter_length_policy(from, to, channels, length, policy, machine)
        .ok()
        .unwrap()
}

#[test]
fn presets_and_equivalent_custom_lengths_share_the_same_filter_for_every_pair() {
    let machine = Machine::new(scattered);
    for (from, to) in pairs() {
        let mut previous = 0;
        for length in [
            FilterLength::Standard,
            FilterLength::Long,
            FilterLength::ExtraLong,
        ] {
            let preset = with_length(&machine, from, to, 2, length);
            let info = preset.filter_info();
            if info.bypass {
                assert!(preset.coefficients().is_empty());
                continue;
            }
            let taps = info.taps_per_phase;
            assert!(taps >= previous && taps % 2 == 1);
            assert_eq!(info.lookahead_input_frames, taps / 2);
            assert_eq!(info.coefficient_bytes, (info.phases + 1) * taps * 8);
            let custom = with_length(&machine, from, to, 1, FilterLength::Custom(taps));
            assert_eq!(custom.coefficients(), preset.coefficients());
            previous = taps;
        }
    }
    assert_eq!(FilterLength::default(), FilterLength::Standard);
}

fn check_configured_lengths(chosen: impl Fn(FilterLength, u64) -> bool) {
    let machine = Machine::new(scattered);
    let frames = 257;
    let input: Vec<f64> = (0..frames * 2)
        .map(|i| {
            let bits = (i as u64)
                .wrapping_mul(6364136223846793005)
                .wrapping_add(1442695040888963407);
            f64::from(((bits >> 32) as i32 as f64 / 4294967296.0) as f32)
        })
        .collect();
    let samples = bits(&input);
    for (from, to) in pairs() {
        for length in [
            FilterLength::Long,
            FilterLength::ExtraLong,
            FilterLength::Custom(3),
            FilterLength::Custom(65),
        ] {
            let mut converter = with_length(&machine, from, to, 2, length);
            let info = converter.filter_info();
            let work = frames as u64 * u64::from(to) / u64::from(from) * info.taps_per_phase as u64;
            if !chosen(length, work) {
                continue;
            }
            let bank = converter.coefficients().as_ptr();
            let expected = converter.process_f64(&Binary64, &samples, true).unwrap();
            assert_eq!(
                expected.len() / 2,
                (frames as u64 * u64::from(to)).div_ceil(u64::from(from)) as usize
            );
            assert!(expected
                .iter()
                .all(|&value| f64::from_bits(value).is_finite()));
            let mono_input: Vec<u64> = samples.iter().step_by(2).copied().collect();
            let mut mono = with_length(&machine, from, to, 1, length);
            let mono_output = mono.process_f64(&Binary64, &mono_input, true).unwrap();
            assert!(expected
                .chunks_exact(2)
                .zip(mono_output)
                .all(|(stereo, mono)| stereo[0] == mono));
            converter.reset();
            assert_eq!(converter.coefficients().as_ptr(), bank);
            assert_eq!(converter.filter_info(), info);
            let mut actual = Vec::new();
            let mut remaining = samples.as_slice();
            for block in [1, 17, 113, 257].into_iter().cycle() {
                if remaining.is_empty() {
                    break;
                }
                let (chunk, tail) = remaining.split_at((block * 2).min(remaining.len()));
                actual.extend(converter.process_f64(&Binary64, chunk, false).unwrap());
                remaining = tail;
            }
            actual.extend(converter.process_f64(&Binary64, &[], true).unwrap());
            assert_eq!(actual, expected, "{from}->{to}, {length:?}");
            assert!(converter
                .process_f64(&Binary64, &[], true)
                .unwrap()
                .is_empty());
            converter.reset();
            let mut narrowed = Vec::new();
            for chunk in input.chunks(67 * 2) {
                let chunk: Vec<u32> = chunk.iter().map(|&x| (x as f32).to_bits()).collect();
                narrowed.extend(converter.process_f32(&Binary64, &chunk, false).unwrap());
            }
            narrowed.extend(converter.process_f32(&Binary64, &[], true).unwrap());
            assert_eq!(
                narrowed,
                expected
                    .iter()
                    .map(|&x| (f64::from_bits(x) as f32).to_bits())
                    .collect::<Vec<_>>()
            );
        }
    }
}

#[test]
fn configured_lengths_preserve_streaming_channels_reset_and_f32_for_every_pair() {
    check_configured_lengths(|_, work| work <= 3_000_000);
}

#[test]
fn configured_lengths_preserve_streaming_in_longer_conversions() {
    check_configured_lengths(|_, work| work > 3_000_000 && work <= 10_000_000);
}

#[test]
fn long_filters_preserve_streaming_in_the_longest_conversions() {
    check_configured_lengths(|length, work| work > 10_000_000 && length == FilterLength::Long);
}

#[test]
fn extra_long_filters_preserve_streaming_in_the_longest_conversions() {
    check_configured_lengths(|length, work| work > 10_000_000 && length != FilterLength::Long);
}

#[test]
fn custom_lengths_are_validated_for_every_pair_including_bypass() {
    let machine = Machine::new(scattered);
    for (from, to) in pairs() {
        for requested in [0, 1, 2, 4, usize::MAX] {
            assert!(matches!(
                Resampler::with_filter_length(
                    from,
                    to,
                    2,
                    FilterLength::Custom(requested),
                    &machine
                ),
                Err(Error::InvalidFilterLength { requested: actual, .. }) if actual == requested
            ));
        }
        if from == to {
            for length in [
                FilterLength::Standard,
                FilterLength::Long,
                FilterLength::ExtraLong,
                FilterLength::Custom(3),
            ] {
                let mut converter = with_length(&machine, from, to, 1, length);
                let input = bits(&[0.0, -0.0, 0.5 + 2.0_f64.powi(-40), -2.0]);
                assert_eq!(
                    converter.process_f64(&Binary64, &input, true).unwrap(),
                    input
                );
                assert!(converter.filter_info().bypass);
                assert_eq!(converter.filter_info().taps_per_phase, 0);
                assert!(converter.coefficients().is_empty());
            }
        }
    }
}

#[test]
fn existing_constructors_keep_the_generic_policy() {
    let machine = Machine::new(precise);
    assert_eq!(FilterLengthPolicy::default(), FilterLengthPolicy::Generic);
    for (from, to) in [
        (48_000, 44_100),
        (44_100, 48_000),
        (48_000, 48_001),
        (48_000, 48_000),
    ] {
        let default = Resampler::new(from, to, 2, &machine).ok().unwrap();
        for length in [
            FilterLength::Standard,
            FilterLength::Long,
            FilterLength::ExtraLong,
        ] {
            let implicit = with_length(&machine, from, to, 2, length);
            let explicit = with_policy(
                &machine,
                from,
                to,
                2,
                length,
                FilterLengthPolicy::Generic,
            );
            assert_eq!(implicit.filter_length_policy(), FilterLengthPolicy::Generic);
            assert_eq!(implicit.filter_info(), explicit.filter_info());
            assert_eq!(implicit.coefficients(), explicit.coefficients());
            if length == FilterLength::Standard {
                assert_eq!(default.filter_info(), explicit.filter_info());
                assert_eq!(default.coefficients(), explicit.coefficients());
            }
        }
    }
}

#[test]
fn policy_changes_presets_but_custom_banks_and_reset_stay_shared() {
    let machine = Machine::new(precise);
    // Exact, interpolated, decimating, capped and bypass configurations.
    for (from, to) in [
        (48_000, 44_100),
        (44_100, 48_000),
        (48_000, 48_001),
        (48_000, 24_000),
        (1, 2),
        (48_000, 48_000),
    ] {
        for length in [
            FilterLength::Standard,
            FilterLength::Long,
            FilterLength::ExtraLong,
        ] {
            let mut fixed = with_policy(&machine, from, to, 2, length, FilterLengthPolicy::Fixed);
            let info = fixed.filter_info();
            let taps = if info.bypass { 3 } else { info.taps_per_phase };
            let bank = fixed.coefficients().as_ptr();
            let wide: Vec<f64> = (0..8192)
                .map(|i| f64::from(((i * 31 % 127) - 63) as f32 / 256.0))
                .collect();
            let input = bits(&wide);
            let expected = fixed.process_f64(&Binary64, &input, true).unwrap();
            for policy in [FilterLengthPolicy::Generic, FilterLengthPolicy::Fixed] {
                let mut custom =
                    with_policy(&machine, from, to, 2, FilterLength::Custom(taps), policy);
                assert_eq!(custom.filter_info(), info);
                assert_eq!(custom.coefficients(), fixed.coefficients());
                if !info.bypass {
                    assert_eq!(custom.coefficients().as_ptr(), bank);
                }
                let mut output = Vec::new();
                for chunk in input.chunks(37 * 2) {
                    output.extend(custom.process_f64(&Binary64, chunk, false).unwrap());
                }
                output.extend(custom.process_f64(&Binary64, &[], true).unwrap());
                assert_eq!(output, expected, "{from}->{to}, {length:?}, {policy:?}");
            }
            fixed.reset();
            assert_eq!(fixed.filter_length_policy(), FilterLengthPolicy::Fixed);
            assert_eq!(fixed.filter_info(), info);
            assert_eq!(fixed.coefficients().as_ptr(), bank);
            let input32: Vec<u32> = wide.iter().map(|&x| (x as f32).to_bits()).collect();
            let output = fixed.process_f32(&Binary64, &input32, true).unwrap();
            assert_eq!(
                output,
                expected
                    .iter()
                    .map(|&x| (f64::from_bits(x) as f32).to_bits())
                    .collect::<Vec<_>>()
            );
        }
    }
}

#[test]
fn both_policies_reject_invalid_configuration_and_preserve_bypass_bits() {
    let machine = Machine::new(scattered);
    for policy in [FilterLengthPolicy::Generic, FilterLengthPolicy::Fixed] {
        let create = |from, to, channels, length| {
            Resampler::with_filter_length_policy(from, to, channels, length, policy, &machine)
        };
        for (from, to) in [(0, 48_000), (48_000, 0), (0, 0)] {
            assert!(matches!(
                create(from, to, 2, FilterLength::Standard),
                Err(Error::ZeroSampleRate)
            ));
        }
        assert!(matches!(
            create(48_000, 44_100, 0, FilterLength::Standard),
            Err(Error::ZeroChannels)
        ));
        assert!(matches!(
            create(48_000, 44_100, usize::MAX, FilterLength::Standard),
            Err(Error::SizeOverflow)
        ));
        for (from, to) in [(48_000, 44_100), (48_000, 48_001), (48_000, 48_000)] {
            for requested in [0, 1, 2, 4, usize::MAX] {
                assert!(matches!(
                    create(from, to, 2, FilterLength::Custom(requested)),
                    Err(Error::InvalidFilterLength { requested: actual, .. }) if actual == requested
                ));
            }
        }
        for length in [
            FilterLength::Standard,
            FilterLength::Long,
            FilterLength::ExtraLong,
            FilterLength::Custom(3),
        ] {
            let mut bypass = create(48_000, 48_000, 1, length).ok().unwrap();
            let input = bits(&[0.0, -0.0, 0.5 + 2.0_f64.powi(-40), -2.0]);
            assert_eq!(bypass.process_f64(&Binary64, &input, true).unwrap(), input);
            assert!(bypass.coefficients().is_empty());
            assert!(bypass.filter_info().bypass);
            assert_eq!(bypass.filter_length_policy(), policy);
        }
    }
}

/// Records where rows are evaluated instead of what their values are.
struct Points;

impl Kernel<i64> for Points {
    fn zero(&self) -> i64 {
        0
    }

    fn windowed_sinc(&self, point: TapPoint) -> i64 {
        let sign = if point.negated { -1 } else { 1 };
        sign * (point.numerator.abs() * 1_000 + point.remainder)
    }

    fn sum(&self, a: i64, b: i64) -> i64 {
        a + b
    }

    fn reciprocal(&self, value: i64) -> i64 {
        value
    }

    fn rounded_product(&self, a: i64, b: i64) -> u64 {
        (a * 1_000_000 + b) as u64
    }
}

#[test]
fn rows_are_evaluated_at_reduced_arguments_and_summed_before_rounding() {
    // Three input frames for every four output frames; five taps, two on each side.
    let design = Design {
        phases: 4,
        taps: 5,
        beta_bits: 0,
        rolloff_bits: 0,
    };
    let bank = coefficients(&Points, 3, 4, design);
    assert_eq!(bank.len(), 25);
    // Distances of the first row: -8, -4, 0, 4, 8. The outer two lie at the edge of the
    // support; the others are whole half turns, with nothing left of the argument.
    let row = |values: [i64; 5]| {
        let sum: i64 = values.iter().sum();
        values.map(|value| (value * 1_000_000 + sum) as u64)
    };
    assert_eq!(bank[..5], row([0, -4_000, 0, -4_000, 0]));
    // The second row lies one quarter further: -9, -5, -1, 3, 7 of 4, and 3 of 12 for each
    // quarter of a half turn.
    assert_eq!(bank[5..10], row([0, 5_009, -1_009, 3_009, -7_009]));
    // The fourth row mirrors the second one, the last is the first one tap later.
    assert_eq!(
        bank[15..20],
        [0, bank[9], bank[8], bank[7], bank[6]]
    );
    assert_eq!(bank[20..25], [0, bank[0], bank[1], bank[2], bank[3]]);
}
