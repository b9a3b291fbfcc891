//! Streams: timing, errors, blocks, channels and precision.

use std::cell::RefCell;
use std::sync::Arc;
use tuneout_resampler::arithmetic::Arithmetic;
use tuneout_resampler::backend::CpuFeatures;
use tuneout_resampler::cache::BankKey;
use tuneout_resampler::design::Design;
use tuneout_resampler::host::Host;
use tuneout_resampler::precision::precise_coefficients;
use tuneout_resampler::{Error, FilterLength, Resampler};

/// Plain binary64 arithmetic.
struct Binary64;

impl Arithmetic for Binary64 {
    fn plus(&self, a: u64, b: u64) -> u64 {
        (f64::from_bits(a) + f64::from_bits(b)).to_bits()
    }

    fn minus(&self, a: u64, b: u64) -> u64 {
        (f64::from_bits(a) - f64::from_bits(b)).to_bits()
    }

    fn times(&self, a: u64, b: u64) -> u64 {
        (f64::from_bits(a) * f64::from_bits(b)).to_bits()
    }

    fn over(&self, a: u64, b: u64) -> u64 {
        (f64::from_bits(a) / f64::from_bits(b)).to_bits()
    }

    fn root(&self, a: u64) -> u64 {
        f64::from_bits(a).sqrt().to_bits()
    }

    fn less(&self, a: u64, b: u64) -> bool {
        f64::from_bits(a) < f64::from_bits(b)
    }

    fn larger(&self, a: u64, b: u64) -> u64 {
        f64::from_bits(a).max(f64::from_bits(b)).to_bits()
    }

    fn nearest(&self, a: u64) -> u64 {
        f64::from_bits(a).round().to_bits()
    }

    fn as_integer(&self, a: u64) -> i64 {
        f64::from_bits(a) as i64
    }

    fn of_integer(&self, n: i64) -> u64 {
        (n as f64).to_bits()
    }

    fn promote(&self, sample: u32) -> u64 {
        f64::from(f32::from_bits(sample)).to_bits()
    }

    fn narrow(&self, sample: u64) -> u32 {
        (f64::from_bits(sample) as f32).to_bits()
    }
}

/// Counts frames without computing them.
struct Silence;

impl Arithmetic for Silence {
    fn plus(&self, a: u64, _b: u64) -> u64 {
        a
    }

    fn minus(&self, a: u64, _b: u64) -> u64 {
        a
    }

    fn times(&self, a: u64, _b: u64) -> u64 {
        a
    }

    fn over(&self, a: u64, _b: u64) -> u64 {
        a
    }

    fn root(&self, a: u64) -> u64 {
        a
    }

    fn less(&self, _a: u64, _b: u64) -> bool {
        false
    }

    fn larger(&self, a: u64, _b: u64) -> u64 {
        a
    }

    fn nearest(&self, a: u64) -> u64 {
        a
    }

    fn as_integer(&self, _a: u64) -> i64 {
        0
    }

    fn of_integer(&self, _n: i64) -> u64 {
        0
    }

    fn promote(&self, _sample: u32) -> u64 {
        0
    }

    fn narrow(&self, _sample: u64) -> u32 {
        0
    }
}

fn pairs() -> Vec<(u32, u32)> {
    let rates = [
        8_000, 11_025, 12_000, 16_000, 22_050, 24_000, 32_000, 44_100, 48_000, 88_200, 96_000,
        176_400, 192_000, 352_800, 384_000, 705_600, 768_000,
    ];
    let mut pairs: Vec<(u32, u32)> = rates
        .iter()
        .flat_map(|&from| rates.iter().map(move |&to| (from, to)))
        .collect();
    for rate in rates {
        for neighbor in [rate - 1, rate + 1] {
            pairs.extend([(rate, neighbor), (neighbor, rate)]);
        }
    }
    pairs.sort_unstable();
    pairs.dedup();
    pairs
}

/// A processor with every vector unit, and a short memory for banks.
struct Machine {
    make: fn(u32, u32, Design) -> Vec<u64>,
    banks: RefCell<Vec<(BankKey, Arc<Vec<u64>>)>>,
}

impl Machine {
    fn new(make: fn(u32, u32, Design) -> Vec<u64>) -> Self {
        Machine {
            make,
            banks: RefCell::new(Vec::new()),
        }
    }
}

impl Host for Machine {
    fn features(&self) -> CpuFeatures {
        CpuFeatures {
            avx512f: true,
            avx: true,
            neon: false,
        }
    }

    fn shared_coefficients(&self, from: u32, to: u32, design: Design) -> Arc<Vec<u64>> {
        let key = BankKey::new(from, to, design);
        let mut banks = self.banks.borrow_mut();
        if let Some((_, bank)) = banks.iter().find(|(known, _)| *known == key) {
            return bank.clone();
        }
        let bank = Arc::new((self.make)(from, to, design));
        if banks.len() == 4 {
            banks.remove(0);
        }
        banks.push((key, bank.clone()));
        bank
    }
}

/// Coefficients that cost little to make and differ from tap to tap.
fn scattered(_from: u32, _to: u32, design: Design) -> Vec<u64> {
    let scale = 1.0 / design.taps as f64 / 2_147_483_648.0;
    (0..((design.phases + 1) * design.taps) as u64)
        .map(|i| {
            let mixed = i.wrapping_mul(0x9e37_79b9_7f4a_7c15) >> 32;
            (mixed as u32 as i32 as f64 * scale).to_bits()
        })
        .collect()
}

/// The library's own coefficients.
fn precise(from: u32, to: u32, design: Design) -> Vec<u64> {
    precise_coefficients(&Binary64, from, to, design)
}

fn signal(frames: usize, channels: usize) -> Vec<f64> {
    (0..frames * channels)
        .map(|i| {
            let bits = (i as u64)
                .wrapping_mul(6364136223846793005)
                .wrapping_add(1442695040888963407);
            (bits >> 32) as i32 as f64 / 2147483648.0 * 0.5
        })
        .collect()
}

fn bits(values: &[f64]) -> Vec<u64> {
    values.iter().map(|value| value.to_bits()).collect()
}

fn standard(machine: &Machine, from: u32, to: u32, channels: usize) -> Resampler {
    Resampler::new(from, to, channels, machine).ok().unwrap()
}

#[test]
fn reusable_output_preserves_error_atomicity_flush_and_bits() {
    let machine = Machine::new(scattered);
    let sample = 0.1f64.to_bits();
    for (from, to) in pairs() {
        let input = bits(&signal(257, 2));
        let mut expected = standard(&machine, from, to, 2);
        let mut actual = standard(&machine, from, to, 2);
        let mut output = vec![9.0f64.to_bits(); 11];
        let capacity = output.capacity();
        assert!(matches!(
            actual.process_f64_into(&Binary64, &[sample], true, &mut output),
            Err(Error::IncompleteFrame { .. })
        ));
        assert_eq!(output, [9.0f64.to_bits(); 11]);
        assert_eq!(output.capacity(), capacity);
        for chunk in input.chunks(257 * 2) {
            actual
                .process_f64_into(&Binary64, chunk, false, &mut output)
                .unwrap();
            assert_eq!(output, expected.process_f64(&Binary64, chunk, false).unwrap());
        }
        actual
            .process_f64_into(&Binary64, &[], true, &mut output)
            .unwrap();
        assert_eq!(output, expected.process_f64(&Binary64, &[], true).unwrap());
        let tail = output.clone();
        assert_eq!(
            actual.process_f64_into(&Binary64, &[sample, sample], false, &mut output),
            Err(Error::StreamFinished)
        );
        assert_eq!(output, tail);
        actual
            .process_f64_into(&Binary64, &[], true, &mut output)
            .unwrap();
        assert!(output.is_empty());
        actual.reset();
        expected.reset();
        actual
            .process_f64_into(&Binary64, &input, true, &mut output)
            .unwrap();
        assert_eq!(output, expected.process_f64(&Binary64, &input, true).unwrap());
    }
}

fn check_batch_buffering(chosen: impl Fn(usize, u64) -> bool) {
    let machine = Machine::new(scattered);
    for (index, (from, to)) in pairs().into_iter().enumerate() {
        let mut stereo = standard(&machine, from, to, 2);
        let mut mono = standard(&machine, from, to, 1);
        let info = stereo.filter_info();
        assert_eq!(mono.filter_info().additional_batch_input_frames, 0);
        assert!(info.additional_batch_input_frames as u64 * 1000 <= u64::from(from) * 64);
        // Exercise running output even when the filter exceeds a small block,
        // without over-testing high upsampling ratios with a fixed long input.
        let frames = 2 * info.lookahead_input_frames + 2 * info.additional_batch_input_frames + 17;
        let work = frames as u64 * u64::from(to) / u64::from(from) * info.taps_per_phase as u64;
        if !chosen(index, work) {
            continue;
        }
        let input = bits(&signal(frames, 1));
        let mut stereo_frames = 0;
        let mut mono_frames = 0;
        let bound = (info.additional_batch_input_frames as u64 * u64::from(to))
            .div_ceil(u64::from(from)) as usize;
        for chunk in input.chunks(17) {
            let paired: Vec<u64> = chunk.iter().flat_map(|&x| [x, x]).collect();
            stereo_frames += stereo.process_f64(&Silence, &paired, false).unwrap().len() / 2;
            mono_frames += mono.process_f64(&Silence, chunk, false).unwrap().len();
            assert!(stereo_frames <= mono_frames);
            assert!(mono_frames - stereo_frames <= bound);
        }
        assert!(
            mono_frames > 0,
            "{from}->{to}: no running output was checked"
        );
    }
}

#[test]
fn reported_batch_buffering_bounds_the_default_stereo_delay() {
    check_batch_buffering(|_, work| work <= 30_000_000);
}

#[test]
fn reported_batch_buffering_bounds_the_longest_conversions_first_quarter() {
    check_batch_buffering(|index, work| work > 30_000_000 && index % 4 == 0);
}

#[test]
fn reported_batch_buffering_bounds_the_longest_conversions_second_quarter() {
    check_batch_buffering(|index, work| work > 30_000_000 && index % 4 == 1);
}

#[test]
fn reported_batch_buffering_bounds_the_longest_conversions_third_quarter() {
    check_batch_buffering(|index, work| work > 30_000_000 && index % 4 == 2);
}

#[test]
fn reported_batch_buffering_bounds_the_longest_conversions_last_quarter() {
    check_batch_buffering(|index, work| work > 30_000_000 && index % 4 == 3);
}

#[test]
fn invalid_configuration_and_partial_frames_are_rejected_without_consuming_input() {
    let machine = Machine::new(precise);
    assert!(matches!(
        Resampler::new(0, 48_000, 2, &machine),
        Err(Error::ZeroSampleRate)
    ));
    assert!(matches!(
        Resampler::new(44_100, 0, 2, &machine),
        Err(Error::ZeroSampleRate)
    ));
    assert!(matches!(
        Resampler::new(44_100, 48_000, 0, &machine),
        Err(Error::ZeroChannels)
    ));
    assert!(matches!(
        Resampler::new(44_100, 48_000, usize::MAX, &machine),
        Err(Error::SizeOverflow)
    ));
    let input = bits(&signal(257, 2));
    let mut a = standard(&machine, 44_100, 48_000, 2);
    let mut b = standard(&machine, 44_100, 48_000, 2);
    assert!(matches!(
        a.process_f64(&Binary64, &[0.1f64.to_bits()], true),
        Err(Error::IncompleteFrame { .. })
    ));
    assert_eq!(
        a.process_f64(&Binary64, &input, true).unwrap(),
        b.process_f64(&Binary64, &input, true).unwrap()
    );
}

#[test]
fn final_flush_is_idempotent_and_reset_starts_a_new_stream() {
    let machine = Machine::new(scattered);
    for (from, to) in pairs() {
        let mut r = standard(&machine, from, to, 2);
        let input = bits(&signal(257, 2));
        let bank = r.coefficients().as_ptr();
        let first = r.process_f64(&Binary64, &input, true).unwrap();
        assert!(r.process_f64(&Binary64, &[], true).unwrap().is_empty());
        assert!(r.process_f32(&Binary64, &[], false).unwrap().is_empty());
        assert_eq!(
            r.process_f64(&Binary64, &[0, 0], false),
            Err(Error::StreamFinished)
        );
        r.reset();
        assert_eq!(bank, r.coefficients().as_ptr());
        assert_eq!(first, r.process_f64(&Binary64, &input, true).unwrap());
    }
}

#[test]
fn equal_rate_bypass_preserves_bits_and_uses_no_coefficients() {
    let machine = Machine::new(scattered);
    let mut r = standard(&machine, 48_000, 48_000, 2);
    let input = bits(&[0.0, -0.0, 0.5 + 2.0_f64.powi(-40), -2.0]);
    assert_eq!(r.process_f64(&Binary64, &input, true).unwrap(), input);
    assert!(r.filter_info().bypass);
    assert_eq!(r.filter_info().coefficient_bytes, 0);
    assert!(r.coefficients().is_empty());
}

#[test]
fn irregular_blocks_preserve_timing_samples_and_channel_isolation() {
    let machine = Machine::new(scattered);
    for (from, to) in pairs() {
        for channels in [1, 2, 6, 8] {
            // Short support exercises output between calls as well as final
            // padding. Production coefficients are checked in separate tests.
            let length = FilterLength::Custom(65);
            let create = |channels| {
                Resampler::with_filter_length(from, to, channels, length, &machine)
                    .ok()
                    .unwrap()
            };
            let input = bits(&signal(257, channels));
            let mut r = create(channels);
            let expected = r.process_f64(&Binary64, &input, true).unwrap();
            assert_eq!(
                expected.len() / channels,
                (257_u64 * u64::from(to)).div_ceil(u64::from(from)) as usize
            );
            r.reset();
            let mut actual = Vec::new();
            let mut remaining = input.as_slice();
            for frames in [1, 17, 113, 64].into_iter().cycle() {
                if remaining.is_empty() {
                    break;
                }
                let (chunk, tail) = remaining.split_at((frames * channels).min(remaining.len()));
                actual.extend(r.process_f64(&Binary64, chunk, false).unwrap());
                remaining = tail;
            }
            assert!(
                !actual.is_empty(),
                "{from}->{to}: no running output was checked"
            );
            actual.extend(r.process_f64(&Binary64, &[], true).unwrap());
            assert_eq!(actual, expected, "{from}->{to}, {channels} channels");
            let mono_input: Vec<u64> = input.chunks_exact(channels).map(|x| x[0]).collect();
            let mut mono = create(1);
            let mono_output = mono.process_f64(&Binary64, &mono_input, true).unwrap();
            assert!(actual
                .chunks_exact(channels)
                .zip(mono_output)
                .all(|(a, b)| a[0] == b));
        }
    }
}

#[test]
fn f32_output_matches_f64_convolution_of_rounded_input() {
    let machine = Machine::new(scattered);
    for (from, to) in pairs() {
        let input: Vec<f32> = signal(257, 2).into_iter().map(|x| x as f32).collect();
        let wide: Vec<u64> = input.iter().map(|&x| f64::from(x).to_bits()).collect();
        let narrow: Vec<u32> = input.iter().map(|x| x.to_bits()).collect();
        let mut r = standard(&machine, from, to, 2);
        let expected: Vec<u32> = r
            .process_f64(&Binary64, &wide, true)
            .unwrap()
            .into_iter()
            .map(|x| (f64::from_bits(x) as f32).to_bits())
            .collect();
        r.reset();
        let mut actual = Vec::new();
        for chunk in narrow.chunks(67 * 2) {
            actual.extend(r.process_f32(&Binary64, chunk, false).unwrap());
        }
        actual.extend(r.process_f32(&Binary64, &[], true).unwrap());
        assert_eq!(actual, expected);
    }
}

#[test]
fn extreme_rate_construction_is_bounded_and_downsampling_finishes() {
    let machine = Machine::new(scattered);
    for (from, to) in [
        (u32::MAX, 1),
        (u32::MAX, u32::MAX - 4),
        (1, 768_000),
        (768_001, 8_000),
    ] {
        let r = standard(&machine, from, to, 1);
        let info = r.filter_info();
        assert!(info.taps_per_phase <= 65_535);
        assert!(info.coefficient_bytes <= 64 * 1024 * 1024);
    }
    let mut r = standard(&Machine::new(precise), u32::MAX, 1, 1);
    let input = vec![0.25f64.to_bits(); r.filter_info().taps_per_phase];
    let mut output = r.process_f64(&Binary64, &input, false).unwrap();
    output.extend(r.process_f64(&Binary64, &input, false).unwrap());
    output.extend(r.process_f64(&Binary64, &[], true).unwrap());
    assert_eq!(output.len(), 1);
    assert!((f64::from_bits(output[0]) - 0.25).abs() < 1e-12);
}

#[test]
fn blocks_beyond_storage_or_timing_are_refused() {
    let machine = Machine::new(scattered);
    // Nearly as many channels as can be, with a filter that multiplies every frame.
    let channels = isize::MAX as usize / (65_537 * 8);
    let mut r = Resampler::with_filter_length(
        1,
        u32::MAX,
        channels,
        FilterLength::Custom(3),
        &machine,
    )
    .ok()
    .unwrap();
    assert_eq!(
        r.process_f64(&Binary64, &[], false),
        Err(Error::SizeOverflow)
    );
    assert!(matches!(
        Resampler::new(48_000, 44_100, channels + 1, &machine),
        Err(Error::SizeOverflow)
    ));
}

#[test]
fn refused_blocks_leave_the_stream_where_it_was() {
    let machine = Machine::new(scattered);
    let mut r = standard(&machine, 48_000, 44_100, 2);
    let mut other = standard(&machine, 48_000, 44_100, 2);
    let input = bits(&signal(4_000, 2));
    assert_eq!(
        r.process_f64(&Binary64, &input[..4_001], false),
        Err(Error::IncompleteFrame {
            samples: 4_001,
            channels: 2
        })
    );
    assert_eq!(
        r.process_f32(&Binary64, &[0; 3], true),
        Err(Error::IncompleteFrame {
            samples: 3,
            channels: 2
        })
    );
    assert_eq!(
        r.process_f64(&Binary64, &input, false),
        other.process_f64(&Binary64, &input, false)
    );
}
