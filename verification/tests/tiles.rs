//! Tiles of rational periods against frames emitted one batch at a time.

use std::sync::Arc;
use tuneout_resampler::arithmetic::Arithmetic;
use tuneout_resampler::backend::{
    phase_batch_backend_for_rates, select_phase_batch_backend, CpuFeatures, PhaseBatchBackend,
    MAX_BATCH_MILLISECONDS, MAX_BATCH_SCRATCH_BYTES,
};
use tuneout_resampler::design::{gcd, select, Design, BETA_BITS, ROLLOFF_BITS};
use tuneout_resampler::fir::Fir;
use tuneout_resampler::host::Host;
use tuneout_resampler::kernels::pack_phase_tile;
use tuneout_resampler::{FilterLength, FilterLengthPolicy, Resampler};

/// Plain binary64 arithmetic.
struct Binary64;

impl Arithmetic for Binary64 {
    fn plus(&self, a: u64, b: u64) -> u64 {
        (f64::from_bits(a) + f64::from_bits(b)).to_bits()
    }

    fn minus(&self, a: u64, b: u64) -> u64 {
        (f64::from_bits(a) - f64::from_bits(b)).to_bits()
    }

    fn times(&self, a: u64, b: u64) -> u64 {
        (f64::from_bits(a) * f64::from_bits(b)).to_bits()
    }

    fn over(&self, a: u64, b: u64) -> u64 {
        (f64::from_bits(a) / f64::from_bits(b)).to_bits()
    }

    fn root(&self, a: u64) -> u64 {
        f64::from_bits(a).sqrt().to_bits()
    }

    fn less(&self, a: u64, b: u64) -> bool {
        f64::from_bits(a) < f64::from_bits(b)
    }

    fn larger(&self, a: u64, b: u64) -> u64 {
        f64::from_bits(a).max(f64::from_bits(b)).to_bits()
    }

    fn nearest(&self, a: u64) -> u64 {
        f64::from_bits(a).round().to_bits()
    }

    fn as_integer(&self, a: u64) -> i64 {
        f64::from_bits(a) as i64
    }

    fn of_integer(&self, n: i64) -> u64 {
        (n as f64).to_bits()
    }

    fn promote(&self, sample: u32) -> u64 {
        f64::from(f32::from_bits(sample)).to_bits()
    }

    fn narrow(&self, sample: u64) -> u32 {
        (f64::from_bits(sample) as f32).to_bits()
    }
}

const BACKENDS: [PhaseBatchBackend; 3] = [
    PhaseBatchBackend::Avx,
    PhaseBatchBackend::Avx512,
    PhaseBatchBackend::Neon,
];

fn pairs() -> Vec<(u32, u32)> {
    let rates = [
        8_000, 11_025, 12_000, 16_000, 22_050, 24_000, 32_000, 44_100, 48_000, 88_200, 96_000,
        176_400, 192_000, 352_800, 384_000, 705_600, 768_000,
    ];
    let mut pairs: Vec<(u32, u32)> = rates
        .iter()
        .flat_map(|&from| rates.iter().map(move |&to| (from, to)))
        .collect();
    for rate in rates {
        for neighbor in [rate - 1, rate + 1] {
            pairs.extend([(rate, neighbor), (neighbor, rate)]);
        }
    }
    pairs.sort_unstable();
    pairs.dedup();
    pairs
}

fn rates() -> impl Iterator<Item = (u32, u32)> {
    // Coprime ratios exercise every group remainder.
    (1..=9).flat_map(|num| {
        (1..=9)
            .filter(move |&den| gcd(num, den) == 1)
            .map(move |den| (num * 48_000, den * 48_000))
    })
}

fn signal(frames: usize) -> Vec<u64> {
    let mut state = 0xb483_9ea2_163d_725fu64;
    (0..frames * 2)
        .map(|i| {
            state ^= state << 13;
            state ^= state >> 7;
            state ^= state << 17;
            if i % 17 == 0 {
                [1e16, -1e16, -0.0, f64::from_bits(1), -f64::MIN_POSITIVE][i % 5]
            } else {
                state as i64 as f64 / i64::MAX as f64 * 0.45
            }
            .to_bits()
        })
        .collect()
}

fn bank(phases: usize, taps: usize) -> Arc<Vec<u64>> {
    Arc::new(
        (0..(phases + 1) * taps)
            .map(|i| (((i * 7 % 71) as f64 - 35.0) / 64.0).to_bits())
            .collect(),
    )
}

fn reduced(from: u32, to: u32) -> (usize, usize) {
    let divisor = gcd(from, to);
    ((from / divisor) as usize, (to / divisor) as usize)
}

fn kernel(from: u32, to: u32, taps: usize, backend: PhaseBatchBackend) -> Fir {
    let phases = (to / gcd(from, to)) as usize;
    Fir::with_design(
        2,
        from,
        to,
        Design {
            phases,
            taps,
            beta_bits: BETA_BITS,
            rolloff_bits: ROLLOFF_BITS,
        },
        backend,
        bank(phases, taps),
    )
}

fn check_stream<A: Arithmetic>(
    arithmetic: &A,
    actual: &mut Fir,
    expected: &mut Fir,
    backend: PhaseBatchBackend,
    (num, den): (usize, usize),
    frames: usize,
    pattern: &[usize],
    eof_with_input: bool,
) {
    actual.reset();
    expected.reset();
    let input = signal(frames);
    let mut out = Vec::new();
    let mut reference = Vec::new();
    let mut offset = 0;
    for block in pattern.iter().cycle() {
        if offset == frames {
            break;
        }
        let end = (offset + block).min(frames);
        let eof = eof_with_input && end == frames;
        out.extend(actual.process_f64(arithmetic, &input[offset * 2..end * 2], eof));
        reference.extend(expected.process_f64(arithmetic, &input[offset * 2..end * 2], eof));
        assert!(out.len() <= reference.len());
        assert!(reference.len() - out.len() <= backend.periods() * den * 2);
        offset = end;
    }
    out.extend(actual.process_f64(arithmetic, &[], true));
    reference.extend(expected.process_f64(arithmetic, &[], true));
    assert_eq!(out, reference);
    assert_eq!(out.len(), (frames * den).div_ceil(num) * 2);
    assert!(actual.process_f64(arithmetic, &[], true).is_empty());
}

#[test]
fn tiles_cover_all_group_tails_phases_origins_and_tap_lengths() {
    for backend in BACKENDS {
        let cycles = backend.periods();
        for (from, to) in rates() {
            let (num, den) = reduced(from, to);
            for taps in [1, 3, 5, 7, 9, 17, 65] {
                let mut actual = kernel(from, to, taps, backend);
                let mut expected = kernel(from, to, taps, PhaseBatchBackend::Disabled);
                let frames = taps + (cycles + 1) * num + 13;
                for phase in 0..den {
                    let start = [0, 10_000, 1_i64 << 50][phase % 3];
                    for fir in [&mut actual, &mut expected] {
                        fir.resume(
                            signal(frames),
                            start,
                            start + (taps / 2) as i64 + (phase % 5) as i64,
                            phase as u32,
                        );
                    }
                    let mut output = vec![123.0f64.to_bits(), (-456.0f64).to_bits()];
                    assert_eq!(
                        actual.try_process_phase_tile(&Binary64, false, &mut output),
                        Some(cycles * den * 2)
                    );
                    assert_eq!(output[..2], [123.0f64.to_bits(), (-456.0f64).to_bits()]);
                    let mut reference = Vec::new();
                    for _ in 0..cycles * den / 4 {
                        reference.extend(expected.try_process_stereo_batch(&Binary64).unwrap());
                    }
                    assert_eq!(&output[2..], &reference);
                    assert_eq!(actual.current_position(), expected.current_position());
                }
            }
        }
    }
}

#[test]
fn tiles_wait_for_exact_input_extent_without_mutating_output_or_clock() {
    for backend in BACKENDS {
        let cycles = backend.periods();
        for (from, to) in rates() {
            let (num, den) = reduced(from, to);
            let mut actual = kernel(from, to, 17, backend);
            for phase in 0..den {
                for start in [0, 10_000, 1_i64 << 50] {
                    let origin = start + 8 + 3;
                    let last_center = origin + ((phase + (cycles * den - 1) * num) / den) as i64;
                    let end = last_center - 8 + 17;
                    let buffer = signal((end - start) as usize);
                    let shorter = buffer[..buffer.len() - 2].to_vec();
                    actual.resume(shorter, start, origin, phase as u32);
                    let position = actual.current_position();
                    let mut output = vec![123.0f64.to_bits(), (-456.0f64).to_bits()];
                    let capacity = output.capacity();
                    assert_eq!(
                        actual.try_process_phase_tile(&Binary64, false, &mut output),
                        Some(0)
                    );
                    assert_eq!(
                        actual.try_process_phase_tile(&Binary64, true, &mut output),
                        None
                    );
                    assert_eq!(actual.current_position(), position);
                    assert_eq!(output, [123.0f64.to_bits(), (-456.0f64).to_bits()]);
                    assert_eq!(output.capacity(), capacity);
                    actual.resume(buffer, start, origin, phase as u32);
                    assert_eq!(
                        actual.try_process_phase_tile(&Binary64, false, &mut output),
                        Some(cycles * den * 2)
                    );
                    assert_eq!(output[..2], [123.0f64.to_bits(), (-456.0f64).to_bits()]);
                    assert_eq!(
                        actual.current_position(),
                        (origin + (cycles * num) as i64, phase as u32)
                    );
                }
            }
        }
    }
}

#[test]
fn streams_preserve_bits_lengths_reset_and_final_drain_for_every_backend() {
    for backend in BACKENDS {
        for (from, to) in rates() {
            let mut actual = kernel(from, to, 65, backend);
            let mut expected = kernel(from, to, 65, PhaseBatchBackend::Disabled);
            let (num, den) = reduced(from, to);
            let tile = backend.periods() * num;
            let half = 32;
            for frames in [
                0,
                1,
                half - 1,
                half,
                half + 1,
                65,
                65 + tile - 1,
                65 + tile,
                65 * 3 + tile + 7,
            ] {
                for pattern in [&[1][..], &[1024], &[3, 17, 113, 257], &[65536]] {
                    for eof in [false, true] {
                        check_stream(
                            &Binary64,
                            &mut actual,
                            &mut expected,
                            backend,
                            (num, den),
                            frames,
                            pattern,
                            eof,
                        );
                    }
                }
            }
        }
    }
}

fn check_production<A: Arithmetic>(
    arithmetic: &A,
    (from, to): (u32, u32),
    backend: PhaseBatchBackend,
    policy: FilterLengthPolicy,
    length: FilterLength,
    eof: bool,
) {
    let design = select(from, to, length, policy).unwrap();
    let shared = bank(design.phases, design.taps);
    let mut actual = Fir::with_design(2, from, to, design, backend, shared.clone());
    let mut expected = Fir::with_design(2, from, to, design, PhaseBatchBackend::Disabled, shared);
    let (num, den) = reduced(from, to);
    let frames = design.taps * 2 + backend.periods() * num + 7;
    check_stream(
        arithmetic,
        &mut actual,
        &mut expected,
        backend,
        (num, den),
        frames,
        &[17, 257, 4096],
        eof,
    );
}

#[test]
fn production_lengths_match_unbatched_streaming_for_every_backend() {
    // Every ratio once, in turn with every backend, policy, preset and way to finish.
    // The tests below go through all combinations.
    let mut settings = Vec::new();
    for length in [
        FilterLength::Standard,
        FilterLength::Long,
        FilterLength::ExtraLong,
    ] {
        for policy in [FilterLengthPolicy::Generic, FilterLengthPolicy::Fixed] {
            for backend in [PhaseBatchBackend::Avx, PhaseBatchBackend::Avx512] {
                for eof in [false, true] {
                    settings.push((backend, policy, length, eof));
                }
            }
        }
    }
    for (pair, &(backend, policy, length, eof)) in rates().zip(settings.iter().cycle()) {
        check_production(&Binary64, pair, backend, policy, length, eof);
    }
}

/// Arithmetic of 64-bit residues, which takes less time than that of binary64.
struct Residues;

impl Arithmetic for Residues {
    fn plus(&self, a: u64, b: u64) -> u64 {
        a.wrapping_add(b)
    }

    fn minus(&self, a: u64, b: u64) -> u64 {
        a.wrapping_sub(b)
    }

    fn times(&self, a: u64, b: u64) -> u64 {
        a.wrapping_mul(b)
    }

    fn over(&self, a: u64, b: u64) -> u64 {
        a.rotate_left(7).wrapping_mul(b | 1)
    }

    fn root(&self, a: u64) -> u64 {
        a.rotate_left(32)
    }

    fn less(&self, a: u64, b: u64) -> bool {
        a < b
    }

    fn larger(&self, a: u64, b: u64) -> u64 {
        a.max(b)
    }

    fn nearest(&self, a: u64) -> u64 {
        a
    }

    fn as_integer(&self, a: u64) -> i64 {
        a as i64
    }

    fn of_integer(&self, n: i64) -> u64 {
        n as u64
    }

    fn promote(&self, sample: u32) -> u64 {
        u64::from(sample)
    }

    fn narrow(&self, sample: u64) -> u32 {
        sample as u32
    }
}

fn check_every_other_ratio(
    backend: PhaseBatchBackend,
    policy: FilterLengthPolicy,
    length: FilterLength,
    eof: bool,
    part: usize,
) {
    for pair in rates().skip(part).step_by(2) {
        check_production(&Residues, pair, backend, policy, length, eof);
    }
}

#[test]
fn narrow_tiles_match_at_generic_standard_length_finished_apart_first_half() {
    check_every_other_ratio(
        PhaseBatchBackend::Avx,
        FilterLengthPolicy::Generic,
        FilterLength::Standard,
        false,
        0,
    );
}

#[test]
fn narrow_tiles_match_at_generic_standard_length_finished_apart_second_half() {
    check_every_other_ratio(
        PhaseBatchBackend::Avx,
        FilterLengthPolicy::Generic,
        FilterLength::Standard,
        false,
        1,
    );
}

#[test]
fn narrow_tiles_match_at_generic_standard_length_finished_with_input_first_half() {
    check_every_other_ratio(
        PhaseBatchBackend::Avx,
        FilterLengthPolicy::Generic,
        FilterLength::Standard,
        true,
        0,
    );
}

#[test]
fn narrow_tiles_match_at_generic_standard_length_finished_with_input_second_half() {
    check_every_other_ratio(
        PhaseBatchBackend::Avx,
        FilterLengthPolicy::Generic,
        FilterLength::Standard,
        true,
        1,
    );
}

#[test]
fn narrow_tiles_match_at_generic_long_length_finished_apart_first_half() {
    check_every_other_ratio(
        PhaseBatchBackend::Avx,
        FilterLengthPolicy::Generic,
        FilterLength::Long,
        false,
        0,
    );
}

#[test]
fn narrow_tiles_match_at_generic_long_length_finished_apart_second_half() {
    check_every_other_ratio(
        PhaseBatchBackend::Avx,
        FilterLengthPolicy::Generic,
        FilterLength::Long,
        false,
        1,
    );
}

#[test]
fn narrow_tiles_match_at_generic_long_length_finished_with_input_first_half() {
    check_every_other_ratio(
        PhaseBatchBackend::Avx,
        FilterLengthPolicy::Generic,
        FilterLength::Long,
        true,
        0,
    );
}

#[test]
fn narrow_tiles_match_at_generic_long_length_finished_with_input_second_half() {
    check_every_other_ratio(
        PhaseBatchBackend::Avx,
        FilterLengthPolicy::Generic,
        FilterLength::Long,
        true,
        1,
    );
}

#[test]
fn narrow_tiles_match_at_generic_extra_long_length_finished_apart_first_half() {
    check_every_other_ratio(
        PhaseBatchBackend::Avx,
        FilterLengthPolicy::Generic,
        FilterLength::ExtraLong,
        false,
        0,
    );
}

#[test]
fn narrow_tiles_match_at_generic_extra_long_length_finished_apart_second_half() {
    check_every_other_ratio(
        PhaseBatchBackend::Avx,
        FilterLengthPolicy::Generic,
        FilterLength::ExtraLong,
        false,
        1,
    );
}

#[test]
fn narrow_tiles_match_at_generic_extra_long_length_finished_with_input_first_half() {
    check_every_other_ratio(
        PhaseBatchBackend::Avx,
        FilterLengthPolicy::Generic,
        FilterLength::ExtraLong,
        true,
        0,
    );
}

#[test]
fn narrow_tiles_match_at_generic_extra_long_length_finished_with_input_second_half() {
    check_every_other_ratio(
        PhaseBatchBackend::Avx,
        FilterLengthPolicy::Generic,
        FilterLength::ExtraLong,
        true,
        1,
    );
}

#[test]
fn narrow_tiles_match_at_fixed_standard_length_finished_apart_first_half() {
    check_every_other_ratio(
        PhaseBatchBackend::Avx,
        FilterLengthPolicy::Fixed,
        FilterLength::Standard,
        false,
        0,
    );
}

#[test]
fn narrow_tiles_match_at_fixed_standard_length_finished_apart_second_half() {
    check_every_other_ratio(
        PhaseBatchBackend::Avx,
        FilterLengthPolicy::Fixed,
        FilterLength::Standard,
        false,
        1,
    );
}

#[test]
fn narrow_tiles_match_at_fixed_standard_length_finished_with_input_first_half() {
    check_every_other_ratio(
        PhaseBatchBackend::Avx,
        FilterLengthPolicy::Fixed,
        FilterLength::Standard,
        true,
        0,
    );
}

#[test]
fn narrow_tiles_match_at_fixed_standard_length_finished_with_input_second_half() {
    check_every_other_ratio(
        PhaseBatchBackend::Avx,
        FilterLengthPolicy::Fixed,
        FilterLength::Standard,
        true,
        1,
    );
}

#[test]
fn narrow_tiles_match_at_fixed_long_length_finished_apart_first_half() {
    check_every_other_ratio(
        PhaseBatchBackend::Avx,
        FilterLengthPolicy::Fixed,
        FilterLength::Long,
        false,
        0,
    );
}

#[test]
fn narrow_tiles_match_at_fixed_long_length_finished_apart_second_half() {
    check_every_other_ratio(
        PhaseBatchBackend::Avx,
        FilterLengthPolicy::Fixed,
        FilterLength::Long,
        false,
        1,
    );
}

#[test]
fn narrow_tiles_match_at_fixed_long_length_finished_with_input_first_half() {
    check_every_other_ratio(
        PhaseBatchBackend::Avx,
        FilterLengthPolicy::Fixed,
        FilterLength::Long,
        true,
        0,
    );
}

#[test]
fn narrow_tiles_match_at_fixed_long_length_finished_with_input_second_half() {
    check_every_other_ratio(
        PhaseBatchBackend::Avx,
        FilterLengthPolicy::Fixed,
        FilterLength::Long,
        true,
        1,
    );
}

#[test]
fn narrow_tiles_match_at_fixed_extra_long_length_finished_apart_first_half() {
    check_every_other_ratio(
        PhaseBatchBackend::Avx,
        FilterLengthPolicy::Fixed,
        FilterLength::ExtraLong,
        false,
        0,
    );
}

#[test]
fn narrow_tiles_match_at_fixed_extra_long_length_finished_apart_second_half() {
    check_every_other_ratio(
        PhaseBatchBackend::Avx,
        FilterLengthPolicy::Fixed,
        FilterLength::ExtraLong,
        false,
        1,
    );
}

#[test]
fn narrow_tiles_match_at_fixed_extra_long_length_finished_with_input_first_half() {
    check_every_other_ratio(
        PhaseBatchBackend::Avx,
        FilterLengthPolicy::Fixed,
        FilterLength::ExtraLong,
        true,
        0,
    );
}

#[test]
fn narrow_tiles_match_at_fixed_extra_long_length_finished_with_input_second_half() {
    check_every_other_ratio(
        PhaseBatchBackend::Avx,
        FilterLengthPolicy::Fixed,
        FilterLength::ExtraLong,
        true,
        1,
    );
}

#[test]
fn wide_tiles_match_at_generic_standard_length_finished_apart_first_half() {
    check_every_other_ratio(
        PhaseBatchBackend::Avx512,
        FilterLengthPolicy::Generic,
        FilterLength::Standard,
        false,
        0,
    );
}

#[test]
fn wide_tiles_match_at_generic_standard_length_finished_apart_second_half() {
    check_every_other_ratio(
        PhaseBatchBackend::Avx512,
        FilterLengthPolicy::Generic,
        FilterLength::Standard,
        false,
        1,
    );
}

#[test]
fn wide_tiles_match_at_generic_standard_length_finished_with_input_first_half() {
    check_every_other_ratio(
        PhaseBatchBackend::Avx512,
        FilterLengthPolicy::Generic,
        FilterLength::Standard,
        true,
        0,
    );
}

#[test]
fn wide_tiles_match_at_generic_standard_length_finished_with_input_second_half() {
    check_every_other_ratio(
        PhaseBatchBackend::Avx512,
        FilterLengthPolicy::Generic,
        FilterLength::Standard,
        true,
        1,
    );
}

#[test]
fn wide_tiles_match_at_generic_long_length_finished_apart_first_half() {
    check_every_other_ratio(
        PhaseBatchBackend::Avx512,
        FilterLengthPolicy::Generic,
        FilterLength::Long,
        false,
        0,
    );
}

#[test]
fn wide_tiles_match_at_generic_long_length_finished_apart_second_half() {
    check_every_other_ratio(
        PhaseBatchBackend::Avx512,
        FilterLengthPolicy::Generic,
        FilterLength::Long,
        false,
        1,
    );
}

#[test]
fn wide_tiles_match_at_generic_long_length_finished_with_input_first_half() {
    check_every_other_ratio(
        PhaseBatchBackend::Avx512,
        FilterLengthPolicy::Generic,
        FilterLength::Long,
        true,
        0,
    );
}

#[test]
fn wide_tiles_match_at_generic_long_length_finished_with_input_second_half() {
    check_every_other_ratio(
        PhaseBatchBackend::Avx512,
        FilterLengthPolicy::Generic,
        FilterLength::Long,
        true,
        1,
    );
}

#[test]
fn wide_tiles_match_at_generic_extra_long_length_finished_apart_first_half() {
    check_every_other_ratio(
        PhaseBatchBackend::Avx512,
        FilterLengthPolicy::Generic,
        FilterLength::ExtraLong,
        false,
        0,
    );
}

#[test]
fn wide_tiles_match_at_generic_extra_long_length_finished_apart_second_half() {
    check_every_other_ratio(
        PhaseBatchBackend::Avx512,
        FilterLengthPolicy::Generic,
        FilterLength::ExtraLong,
        false,
        1,
    );
}

#[test]
fn wide_tiles_match_at_generic_extra_long_length_finished_with_input_first_half() {
    check_every_other_ratio(
        PhaseBatchBackend::Avx512,
        FilterLengthPolicy::Generic,
        FilterLength::ExtraLong,
        true,
        0,
    );
}

#[test]
fn wide_tiles_match_at_generic_extra_long_length_finished_with_input_second_half() {
    check_every_other_ratio(
        PhaseBatchBackend::Avx512,
        FilterLengthPolicy::Generic,
        FilterLength::ExtraLong,
        true,
        1,
    );
}

#[test]
fn wide_tiles_match_at_fixed_standard_length_finished_apart_first_half() {
    check_every_other_ratio(
        PhaseBatchBackend::Avx512,
        FilterLengthPolicy::Fixed,
        FilterLength::Standard,
        false,
        0,
    );
}

#[test]
fn wide_tiles_match_at_fixed_standard_length_finished_apart_second_half() {
    check_every_other_ratio(
        PhaseBatchBackend::Avx512,
        FilterLengthPolicy::Fixed,
        FilterLength::Standard,
        false,
        1,
    );
}

#[test]
fn wide_tiles_match_at_fixed_standard_length_finished_with_input_first_half() {
    check_every_other_ratio(
        PhaseBatchBackend::Avx512,
        FilterLengthPolicy::Fixed,
        FilterLength::Standard,
        true,
        0,
    );
}

#[test]
fn wide_tiles_match_at_fixed_standard_length_finished_with_input_second_half() {
    check_every_other_ratio(
        PhaseBatchBackend::Avx512,
        FilterLengthPolicy::Fixed,
        FilterLength::Standard,
        true,
        1,
    );
}

#[test]
fn wide_tiles_match_at_fixed_long_length_finished_apart_first_half() {
    check_every_other_ratio(
        PhaseBatchBackend::Avx512,
        FilterLengthPolicy::Fixed,
        FilterLength::Long,
        false,
        0,
    );
}

#[test]
fn wide_tiles_match_at_fixed_long_length_finished_apart_second_half() {
    check_every_other_ratio(
        PhaseBatchBackend::Avx512,
        FilterLengthPolicy::Fixed,
        FilterLength::Long,
        false,
        1,
    );
}

#[test]
fn wide_tiles_match_at_fixed_long_length_finished_with_input_first_half() {
    check_every_other_ratio(
        PhaseBatchBackend::Avx512,
        FilterLengthPolicy::Fixed,
        FilterLength::Long,
        true,
        0,
    );
}

#[test]
fn wide_tiles_match_at_fixed_long_length_finished_with_input_second_half() {
    check_every_other_ratio(
        PhaseBatchBackend::Avx512,
        FilterLengthPolicy::Fixed,
        FilterLength::Long,
        true,
        1,
    );
}

#[test]
fn wide_tiles_match_at_fixed_extra_long_length_finished_apart_first_half() {
    check_every_other_ratio(
        PhaseBatchBackend::Avx512,
        FilterLengthPolicy::Fixed,
        FilterLength::ExtraLong,
        false,
        0,
    );
}

#[test]
fn wide_tiles_match_at_fixed_extra_long_length_finished_apart_second_half() {
    check_every_other_ratio(
        PhaseBatchBackend::Avx512,
        FilterLengthPolicy::Fixed,
        FilterLength::ExtraLong,
        false,
        1,
    );
}

#[test]
fn wide_tiles_match_at_fixed_extra_long_length_finished_with_input_first_half() {
    check_every_other_ratio(
        PhaseBatchBackend::Avx512,
        FilterLengthPolicy::Fixed,
        FilterLength::ExtraLong,
        true,
        0,
    );
}

#[test]
fn wide_tiles_match_at_fixed_extra_long_length_finished_with_input_second_half() {
    check_every_other_ratio(
        PhaseBatchBackend::Avx512,
        FilterLengthPolicy::Fixed,
        FilterLength::ExtraLong,
        true,
        1,
    );
}

const WIDE: CpuFeatures = CpuFeatures {
    avx512f: true,
    avx: true,
    neon: false,
};
const NARROW: CpuFeatures = CpuFeatures {
    avx512f: false,
    avx: true,
    neon: false,
};
const PAIRED: CpuFeatures = CpuFeatures {
    avx512f: false,
    avx: false,
    neon: true,
};
const NONE: CpuFeatures = CpuFeatures {
    avx512f: false,
    avx: false,
    neon: false,
};

/// A processor, with banks that cost nothing to make.
struct Machine(CpuFeatures);

impl Host for Machine {
    fn features(&self) -> CpuFeatures {
        self.0
    }

    fn shared_coefficients(&self, _from: u32, _to: u32, design: Design) -> Arc<Vec<u64>> {
        bank(design.phases, design.taps)
    }
}

#[test]
fn production_dispatch_uses_common_geometry_latency_and_memory_limits() {
    let standard = |from, to| {
        select(
            from,
            to,
            FilterLength::Standard,
            FilterLengthPolicy::Generic,
        )
        .unwrap()
    };
    for features in [WIDE, NARROW, PAIRED, NONE] {
        for (from, to) in pairs() {
            let design = standard(from, to);
            let backend = phase_batch_backend_for_rates(from, to, design, features);
            if backend != PhaseBatchBackend::Disabled {
                assert!(match backend {
                    PhaseBatchBackend::Avx512 => features.avx512f,
                    PhaseBatchBackend::Avx => features.avx,
                    PhaseBatchBackend::Neon => features.neon,
                    PhaseBatchBackend::Disabled => false,
                });
                assert_eq!(design.phases, (to / gcd(from, to)) as usize);
                assert!(design.phases >= backend.periods() / 4 && design.phases >= 2);
                let num = u64::from(from / gcd(from, to));
                let cycles = backend.periods() as u64;
                assert!(num * cycles * 1000 <= u64::from(from) * MAX_BATCH_MILLISECONDS);
                assert!((design.taps as u64 + num) * cycles * 16 + 64 <= MAX_BATCH_SCRATCH_BYTES);
            }
        }
        let selected = select_phase_batch_backend(features);
        for (from, to) in rates() {
            let design = standard(from, to);
            let expected = if design.phases < 2 {
                PhaseBatchBackend::Disabled
            } else if selected == PhaseBatchBackend::Avx512 && design.phases < 4 {
                PhaseBatchBackend::Avx
            } else {
                selected
            };
            assert_eq!(
                phase_batch_backend_for_rates(from, to, design, features),
                expected
            );
            for channels in [1, 6] {
                let info = Resampler::new(from, to, channels, &Machine(features))
                    .ok()
                    .unwrap()
                    .filter_info();
                assert_eq!(info.additional_batch_input_frames, 0);
            }
        }
        for divisor in [1, 124] {
            let (from, to) = (5 * divisor, 4 * divisor);
            assert_eq!(
                phase_batch_backend_for_rates(from, to, standard(from, to), features),
                PhaseBatchBackend::Disabled
            );
        }
    }
    for (divisor, expected) in [
        (125, PhaseBatchBackend::Avx),
        (249, PhaseBatchBackend::Avx),
        (250, PhaseBatchBackend::Avx512),
    ] {
        let (from, to) = (5 * divisor, 4 * divisor);
        assert_eq!(
            phase_batch_backend_for_rates(from, to, standard(from, to), WIDE),
            expected
        );
    }
    let (from, to) = (4 * 250_000, 5 * 250_000);
    let mut design = standard(from, to);
    design.taps = 65_535;
    assert_eq!(
        phase_batch_backend_for_rates(from, to, design, WIDE),
        PhaseBatchBackend::Avx
    );
}

#[test]
fn phase_batch_matches_fallback_across_reset_chunks_and_drain() {
    for (from, to) in pairs() {
        let design = select(
            from,
            to,
            FilterLength::Custom(65),
            FilterLengthPolicy::Generic,
        )
        .unwrap();
        let backend = phase_batch_backend_for_rates(from, to, design, WIDE);
        let shared = bank(design.phases, design.taps);
        let mut batched = Fir::with_design(2, from, to, design, backend, shared.clone());
        let mut fallback =
            Fir::with_design(2, from, to, design, PhaseBatchBackend::Disabled, shared);
        let frames = 3 * design.taps + batched.additional_batch_input_frames() + 17;
        let output_bound = backend.periods() * reduced(from, to).1 * 2;
        let mut state = 0x68d1_3f29_abc0_5713u64;
        let input: Vec<u64> = (0..frames * 2)
            .map(|_| {
                state ^= state << 13;
                state ^= state >> 7;
                state ^= state << 17;
                (state as i64 as f64 / i64::MAX as f64 * 0.45).to_bits()
            })
            .collect();
        for chunk in [64, 257, 1024, 4096] {
            batched.reset();
            fallback.reset();
            let mut actual = Vec::new();
            let mut expected = Vec::new();
            for samples in input.chunks(chunk * 2) {
                actual.extend(batched.process_f64(&Binary64, samples, false));
                expected.extend(fallback.process_f64(&Binary64, samples, false));
                assert!(actual.len() <= expected.len());
                assert!(expected.len() - actual.len() <= output_bound);
            }
            actual.extend(batched.process_f64(&Binary64, &[], true));
            expected.extend(fallback.process_f64(&Binary64, &[], true));
            assert_eq!(actual, expected);
            assert!(batched.process_f64(&Binary64, &[], true).is_empty());
        }
    }
}

#[test]
fn an_incomplete_interpolated_batch_does_not_advance_the_clock() {
    let design = select(
        48_000,
        44_101,
        FilterLength::Standard,
        FilterLengthPolicy::Generic,
    )
    .unwrap();
    let mut r = Fir::with_design(
        2,
        48_000,
        44_101,
        design,
        PhaseBatchBackend::Disabled,
        bank(design.phases, design.taps),
    );
    let half = (design.taps / 2) as i64;
    r.resume(vec![0.125f64.to_bits(); (design.taps + 2) * 2], 0, half, 0);
    let position = r.current_position();
    assert!(r
        .try_process_interpolated_stereo_batch(&Binary64, false, None)
        .is_none());
    assert_eq!(position, r.current_position());
    r.resume(vec![0.125f64.to_bits(); (design.taps + 4) * 2], 0, half, 0);
    assert!(r
        .try_process_interpolated_stereo_batch(&Binary64, false, None)
        .is_some());
    assert_ne!(position, r.current_position());
}

#[test]
fn tiles_return_to_the_phase_they_started_at() {
    let mut fir = kernel(5 * 48_000, 3 * 48_000, 9, PhaseBatchBackend::Avx);
    fir.resume(signal(200), 0, 10, 2);
    let mut output = Vec::new();
    assert_eq!(
        fir.try_process_phase_tile(&Binary64, false, &mut output),
        Some(48)
    );
    assert_eq!(fir.current_position(), (50, 2));
}

#[test]
fn tiles_hold_frames_back_and_then_emit_them_together() {
    for backend in BACKENDS {
        for (from, to) in rates() {
            let (num, den) = reduced(from, to);
            let tile = backend.periods() * den * 2;
            let mut tiled = kernel(from, to, 65, backend);
            let mut untiled = kernel(from, to, 65, PhaseBatchBackend::Disabled);
            let input = signal(65 * 3 + 2 * backend.periods() * num);
            let (mut out, mut reference) = (Vec::new(), Vec::new());
            let mut tiles = 0;
            let mut held_back = 0;
            for frame in input.chunks(2) {
                let emitted = tiled.process_f64(&Binary64, frame, false);
                reference.extend(untiled.process_f64(&Binary64, frame, false));
                // Frames that reach before the start are never held back; the others wait for
                // a whole tile.
                let (source, _) = tiled.current_position();
                if emitted.len() == tile && source > 32 {
                    assert!(reference.len() >= out.len() + tile);
                    tiles += 1;
                }
                out.extend(emitted);
                held_back = held_back.max(reference.len() - out.len());
                assert_eq!(out, reference[..out.len()]);
            }
            assert!(tiles > 0, "{from}->{to}, {backend:?}");
            assert!(held_back > 0 && held_back < tile, "{from}->{to}, {backend:?}");
            out.extend(tiled.process_f64(&Binary64, &[], true));
            reference.extend(untiled.process_f64(&Binary64, &[], true));
            assert_eq!(out, reference);
        }
    }
}

#[test]
fn packed_tiles_stay_within_the_scratch_limit() {
    for (from, to) in pairs() {
        let design = select(
            from,
            to,
            FilterLength::Standard,
            FilterLengthPolicy::Generic,
        )
        .unwrap();
        for features in [WIDE, NARROW, PAIRED] {
            let backend = phase_batch_backend_for_rates(from, to, design, features);
            if backend == PhaseBatchBackend::Disabled {
                continue;
            }
            let (num, _) = reduced(from, to);
            let cycles = backend.periods();
            // The rows under all phases of one period, from any phase on.
            let rows = design.taps + num;
            let source = vec![1; (rows + (cycles - 1) * num) * 2];
            let packed = pack_phase_tile(&source, rows, num, cycles);
            assert_eq!(packed.len(), (design.taps + num) * cycles * 2);
            assert!((packed.len() * 8 + 64) as u64 <= MAX_BATCH_SCRATCH_BYTES);
        }
    }
}
