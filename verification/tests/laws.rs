//! What holds of whole streams, on concrete ones.

use std::cell::RefCell;
use std::sync::Arc;
use tuneout_resampler::arithmetic::Arithmetic;
use tuneout_resampler::backend::{
    phase_batch_backend_for_rates, CpuFeatures, PhaseBatchBackend,
};
use tuneout_resampler::cache::BankKey;
use tuneout_resampler::design::{gcd, select, Design};
use tuneout_resampler::fir::Fir;
use tuneout_resampler::host::{Host, SharedBanks};
use tuneout_resampler::precision::precise_coefficients;
use tuneout_resampler::{Error, FilterLength, FilterLengthPolicy, Resampler};

/// Plain binary64 arithmetic.
struct Binary64;

impl Arithmetic for Binary64 {
    fn plus(&self, a: u64, b: u64) -> u64 {
        (f64::from_bits(a) + f64::from_bits(b)).to_bits()
    }

    fn minus(&self, a: u64, b: u64) -> u64 {
        (f64::from_bits(a) - f64::from_bits(b)).to_bits()
    }

    fn times(&self, a: u64, b: u64) -> u64 {
        (f64::from_bits(a) * f64::from_bits(b)).to_bits()
    }

    fn over(&self, a: u64, b: u64) -> u64 {
        (f64::from_bits(a) / f64::from_bits(b)).to_bits()
    }

    fn root(&self, a: u64) -> u64 {
        f64::from_bits(a).sqrt().to_bits()
    }

    fn less(&self, a: u64, b: u64) -> bool {
        f64::from_bits(a) < f64::from_bits(b)
    }

    fn larger(&self, a: u64, b: u64) -> u64 {
        f64::from_bits(a).max(f64::from_bits(b)).to_bits()
    }

    fn nearest(&self, a: u64) -> u64 {
        f64::from_bits(a).round().to_bits()
    }

    fn as_integer(&self, a: u64) -> i64 {
        f64::from_bits(a) as i64
    }

    fn of_integer(&self, n: i64) -> u64 {
        (n as f64).to_bits()
    }

    fn promote(&self, sample: u32) -> u64 {
        f64::from(f32::from_bits(sample)).to_bits()
    }

    fn narrow(&self, sample: u64) -> u32 {
        (f64::from_bits(sample) as f32).to_bits()
    }
}

/// A processor with every vector unit, and a short memory for banks.
struct Machine {
    make: fn(u32, u32, Design) -> Vec<u64>,
    banks: RefCell<Vec<(BankKey, Arc<Vec<u64>>)>>,
}

impl Machine {
    fn new(make: fn(u32, u32, Design) -> Vec<u64>) -> Self {
        Machine {
            make,
            banks: RefCell::new(Vec::new()),
        }
    }
}

impl Host for Machine {
    fn features(&self) -> CpuFeatures {
        CpuFeatures {
            avx512f: true,
            avx: true,
            neon: false,
        }
    }

    fn shared_coefficients(&self, from: u32, to: u32, design: Design) -> Arc<Vec<u64>> {
        let key = BankKey::new(from, to, design);
        let mut banks = self.banks.borrow_mut();
        if let Some((_, bank)) = banks.iter().find(|(known, _)| *known == key) {
            return bank.clone();
        }
        let bank = Arc::new((self.make)(from, to, design));
        if banks.len() == 4 {
            banks.remove(0);
        }
        banks.push((key, bank.clone()));
        bank
    }
}

/// Coefficients that cost little to make and differ from tap to tap.
fn scattered(_from: u32, _to: u32, design: Design) -> Vec<u64> {
    let scale = 1.0 / design.taps as f64 / 2_147_483_648.0;
    (0..((design.phases + 1) * design.taps) as u64)
        .map(|i| {
            let mixed = i.wrapping_mul(0x9e37_79b9_7f4a_7c15) >> 32;
            (mixed as u32 as i32 as f64 * scale).to_bits()
        })
        .collect()
}

fn signal(frames: usize, channels: usize) -> Vec<f64> {
    (0..frames * channels)
        .map(|i| {
            let bits = (i as u64)
                .wrapping_mul(6364136223846793005)
                .wrapping_add(1442695040888963407);
            (bits >> 32) as i32 as f64 / 2147483648.0 * 0.5
        })
        .collect()
}

fn bits(values: &[f64]) -> Vec<u64> {
    values.iter().map(|value| value.to_bits()).collect()
}

const PAIRS: [(u32, u32); 5] = [
    (48_000, 44_100),
    (44_100, 48_000),
    (96_000, 32_000),
    (32_000, 96_000),
    (48_000, 44_101),
];

fn custom(machine: &Machine, (from, to): (u32, u32), channels: usize, taps: usize) -> Resampler {
    Resampler::with_filter_length(from, to, channels, FilterLength::Custom(taps), machine)
        .ok()
        .unwrap()
}

fn in_blocks(r: &mut Resampler, input: &[u64], samples: usize) -> Vec<u64> {
    let mut output = Vec::new();
    for block in input.chunks(samples) {
        output.extend(r.process_f64(&Binary64, block, false).unwrap());
    }
    output.extend(r.process_f64(&Binary64, &[], true).unwrap());
    output
}

#[test]
fn cutting_into_blocks_changes_no_sample() {
    let machine = Machine::new(scattered);
    for pair in PAIRS {
        for channels in [1, 2, 3] {
            let input = bits(&signal(1_000, channels));
            let mut r = custom(&machine, pair, channels, 125);
            let whole = r.process_f64(&Binary64, &input, true).unwrap();
            for frames in [1, 7, 100, 999] {
                r.reset();
                assert_eq!(in_blocks(&mut r, &input, frames * channels), whole);
            }
        }
    }
}

#[test]
fn the_last_frames_decide_how_the_input_continues_for_short_filters_too() {
    let machine = Machine::new(scattered);
    // Rough but for its last ten frames.
    let tail: Vec<f64> = (0..200)
        .map(|i| {
            if i < 190 {
                f64::from(i % 2) * 2.0 - 1.0
            } else {
                0.5 + f64::from(i) / 1_000.0
            }
        })
        .collect();
    for taps in [3, 5, 65] {
        for channels in [1, 2, 3] {
            let input: Vec<u64> = tail
                .iter()
                .flat_map(|&sample| (0..channels).map(move |c| (sample + c as f64).to_bits()))
                .collect();
            for pair in PAIRS {
                let mut r = custom(&machine, pair, channels, taps);
                let whole = r.process_f64(&Binary64, &input, true).unwrap();
                for frames in [1, 3, 63, 64, 65, 199, 200] {
                    r.reset();
                    assert_eq!(in_blocks(&mut r, &input, frames * channels), whole);
                }
            }
        }
    }
}

#[test]
fn a_smooth_tail_is_reflected_however_the_stream_is_cut() {
    let host = SharedBanks::new(
        Binary64,
        CpuFeatures {
            avx512f: false,
            avx: false,
            neon: false,
        },
    );
    let mut r =
        Resampler::with_filter_length(24_000, 48_000, 1, FilterLength::Custom(3), &host).unwrap();
    let mut input = vec![1.0; 63];
    input.push(0.0);
    let input = bits(&input);
    let first = r.process_f64(&Binary64, &input, false).unwrap();
    assert_eq!(first.len(), 126);
    let last = r.process_f64(&Binary64, &[], true).unwrap();
    let values: Vec<f64> = last.iter().map(|&x| f64::from_bits(x)).collect();
    assert_eq!(values, [0.0, -0.5]);
    r.reset();
    let whole = r.process_f64(&Binary64, &input, true).unwrap();
    assert_eq!(whole[..126], first);
    assert_eq!(whole[126..], last);
}

#[test]
fn output_so_far_is_a_prefix_of_every_later_output() {
    let machine = Machine::new(scattered);
    for pair in PAIRS {
        let input = bits(&signal(3_000, 2));
        let mut r = custom(&machine, pair, 2, 65);
        let mut so_far = r.process_f64(&Binary64, &input[..4_000], false).unwrap();
        for end in [4_000, 5_000, 6_000] {
            r.reset();
            let later = r.process_f64(&Binary64, &input[..end], true).unwrap();
            assert!(later.len() >= so_far.len());
            assert_eq!(later[..so_far.len()], so_far);
        }
        so_far.clear();
    }
}

#[test]
fn held_back_input_stays_within_the_reported_bounds() {
    let machine = Machine::new(scattered);
    for (from, to) in PAIRS {
        let mut r = custom(&machine, (from, to), 2, 65);
        let info = r.filter_info();
        let pending = (info.lookahead_input_frames + info.additional_batch_input_frames) as u64;
        let mut given = 0u64;
        let mut returned = 0u64;
        for block in signal(4_000, 2).chunks(2 * 61) {
            given += block.len() as u64 / 2;
            let output = r.process_f64(&Binary64, &bits(block), false).unwrap();
            // A block brings no more than its input and what was held back.
            let bound = (block.len() as u64 / 2 + pending + 2) * u64::from(to);
            assert!(output.len() as u64 / 2 <= bound.div_ceil(u64::from(from)) + 8);
            returned += output.len() as u64 / 2;
            // The next output lies at most the lookahead and one tile behind the input.
            let next = returned * u64::from(from) / u64::from(to);
            assert!(given <= next + pending);
        }
    }
}

#[test]
fn streams_without_tiles_emit_every_due_frame() {
    let machine = Machine::new(scattered);
    for (from, to) in PAIRS {
        let mut r = custom(&machine, (from, to), 1, 65);
        let mut given = 0u64;
        let mut returned = 0u64;
        for block in signal(2_000, 1).chunks(37) {
            given += block.len() as u64;
            returned += r.process_f64(&Binary64, &bits(block), false).unwrap().len() as u64;
            // Frames whose thirty-two frames of lookahead have arrived.
            let due = if given > 32 {
                ((given - 32) * u64::from(to)).div_ceil(u64::from(from))
            } else {
                0
            };
            assert_eq!(returned, due);
        }
    }
}

#[test]
fn tiled_streams_lag_by_less_than_one_tile() {
    let features = CpuFeatures {
        avx512f: true,
        avx: true,
        neon: false,
    };
    let (from, to) = (48_000, 44_100);
    let design = select(
        from,
        to,
        FilterLength::Custom(65),
        FilterLengthPolicy::Generic,
    )
    .unwrap();
    let backend = phase_batch_backend_for_rates(from, to, design, features);
    assert_eq!(backend, PhaseBatchBackend::Avx512);
    let bank = Arc::new(scattered(from, to, design));
    let mut tiled = Fir::with_design(2, from, to, design, backend, bank.clone());
    let mut untiled =
        Fir::with_design(2, from, to, design, PhaseBatchBackend::Disabled, bank);
    let (mut some, mut all) = (Vec::new(), Vec::new());
    let mut lagged = false;
    for block in bits(&signal(9_000, 2)).chunks(2 * 128) {
        some.extend(tiled.process_f64(&Binary64, block, false));
        all.extend(untiled.process_f64(&Binary64, block, false));
        assert_eq!(some, all[..some.len()]);
        assert!(all.len() - some.len() < 16 * 147 * 2);
        lagged |= some.len() < all.len();
    }
    assert!(lagged);
}

#[test]
fn channels_do_not_touch_each_other() {
    let machine = Machine::new(scattered);
    for pair in PAIRS {
        let input = bits(&signal(500, 2));
        let mut changed = input.clone();
        for frame in changed.chunks_exact_mut(2) {
            frame[1] = 7.0f64.to_bits();
        }
        let mut a = custom(&machine, pair, 2, 65);
        let mut b = custom(&machine, pair, 2, 65);
        let a = in_blocks(&mut a, &input, 2 * 77);
        let b = in_blocks(&mut b, &changed, 2 * 77);
        assert_eq!(a.len(), b.len());
        for (x, y) in a.chunks_exact(2).zip(b.chunks_exact(2)) {
            assert_eq!(x[0], y[0]);
        }
        assert_ne!(a, b);
    }
}

#[test]
fn wide_and_narrow_blocks_can_take_turns() {
    let machine = Machine::new(scattered);
    let samples: Vec<f32> = signal(4_000, 2).iter().map(|&x| x as f32).collect();
    let wide: Vec<u64> = samples.iter().map(|&x| f64::from(x).to_bits()).collect();
    let narrow: Vec<u32> = samples.iter().map(|x| x.to_bits()).collect();
    let mut r = custom(&machine, (48_000, 44_100), 2, 65);
    let whole: Vec<u32> = r
        .process_f64(&Binary64, &wide, true)
        .unwrap()
        .into_iter()
        .map(|x| (f64::from_bits(x) as f32).to_bits())
        .collect();
    r.reset();
    let mut output: Vec<u32> = Vec::new();
    for block in 0..8 {
        let range = block * 1_000..(block + 1) * 1_000;
        if block % 2 == 0 {
            let part = r.process_f64(&Binary64, &wide[range], false).unwrap();
            output.extend(part.into_iter().map(|x| (f64::from_bits(x) as f32).to_bits()));
        } else {
            output.extend(r.process_f32(&Binary64, &narrow[range], false).unwrap());
        }
    }
    output.extend(r.process_f32(&Binary64, &[], true).unwrap());
    assert_eq!(output, whole);
}

#[test]
fn lengths_follow_the_rates() {
    let machine = Machine::new(scattered);
    for (from, to) in [(3, 2), (2, 3), (7, 7_000), (7_000, 7), (48_000, 44_101)] {
        for frames in [0, 1, 2, 3, 10, 97] {
            let mut r = custom(&machine, (from, to), 1, 3);
            let output = r
                .process_f64(&Binary64, &bits(&signal(frames, 1)), true)
                .unwrap();
            let expected = (frames as u64 * u64::from(to)).div_ceil(u64::from(from));
            assert_eq!(output.len() as u64, expected);
        }
    }
    assert_eq!(gcd(7, 7_000), 7);
}

#[test]
fn the_first_samples_come_from_the_reflected_start() {
    // One output per input frame and one between: the taps of the first output reach one
    // frame before the start, which is twice the first sample less the second.
    struct Taps;

    impl Host for Taps {
        fn features(&self) -> CpuFeatures {
            CpuFeatures {
                avx512f: false,
                avx: false,
                neon: false,
            }
        }

        fn shared_coefficients(&self, _: u32, _: u32, design: Design) -> Arc<Vec<u64>> {
            assert_eq!((design.phases, design.taps), (2, 3));
            Arc::new(bits(&[1.0, 10.0, 100.0, 2.0, 20.0, 200.0, 0.0, 1.0, 10.0]))
        }
    }

    let mut r =
        Resampler::with_filter_length(1_000, 2_000, 1, FilterLength::Custom(3), &Taps)
            .ok()
            .unwrap();
    let output = r
        .process_f64(&Binary64, &bits(&[1.0, 3.0, 4.0]), true)
        .unwrap();
    let values: Vec<f64> = output.into_iter().map(f64::from_bits).collect();
    // Before the start: 2 * 1 - 3 = -1. The differences 2 and 1 are rough beside the level
    // of the samples, yet smooth enough to blend: past the end lies a value between the
    // mirrored 3 and the reflected 5.
    assert_eq!(values[..5], [309.0, 618.0, 431.0, 862.0, values[4]]);
    let past_end = (values[4] - 43.0) / 100.0;
    assert!((3.0..=5.0).contains(&past_end));
    assert!((values[5] - (2.0 * 3.0 + 20.0 * 4.0 + 200.0 * past_end)).abs() < 1e-9);
}

#[test]
fn converters_hold_the_computed_bank() {
    let features = CpuFeatures {
        avx512f: false,
        avx: true,
        neon: false,
    };
    let host = SharedBanks::new(Binary64, features);
    let (from, to) = (48_000, 96_000);
    let length = FilterLength::Custom(31);
    let converter = Resampler::with_filter_length(from, to, 2, length, &host).unwrap();
    let design = select(from, to, length, FilterLengthPolicy::Generic).unwrap();
    let expected = precise_coefficients(&Binary64, from, to, design);
    assert_eq!(converter.coefficients(), &expected[..]);
    assert_eq!(expected.len(), 3 * 31);
    for row in expected.chunks(31) {
        let sum: f64 = row.iter().map(|&value| f64::from_bits(value)).sum();
        assert!((sum - 1.0).abs() < 1e-14);
    }
    let tile = phase_batch_backend_for_rates(from, to, design, features);
    assert_eq!(
        converter.filter_info().additional_batch_input_frames,
        tile.periods()
    );
    // Another stream shares the bank, for other channels too.
    let other = Resampler::with_filter_length(from, to, 5, length, &host).unwrap();
    assert_eq!(other.coefficients().as_ptr(), converter.coefficients().as_ptr());
    let first = host.shared_coefficients(from, to, design);
    assert!(Arc::ptr_eq(&first, &host.shared_coefficients(from, to, design)));
    // A bank outlives its place in the cache, and is computed anew afterwards.
    for taps in [3, 5, 7, 9, 11, 13, 15, 17] {
        let length = FilterLength::Custom(taps);
        Resampler::with_filter_length(from, to, 1, length, &host).unwrap();
    }
    assert_eq!(*first, expected);
    let second = host.shared_coefficients(from, to, design);
    assert!(!Arc::ptr_eq(&first, &second));
    assert_eq!(first, second);
}

#[test]
fn reported_costs_stay_within_their_limits() {
    let machine = Machine::new(scattered);
    for (from, to) in [(48_000, 44_100), (44_100, 48_000), (48_000, 44_101), (100, 96_000)] {
        for channels in [1, 2, 6] {
            let converter = Resampler::new(from, to, channels, &machine).unwrap();
            let info = converter.filter_info();
            assert_eq!(info.lookahead_input_frames, info.taps_per_phase / 2);
            assert!(info.lookahead_input_frames * 1000 < from as usize * 80);
            assert!(info.additional_batch_input_frames * 1000 <= from as usize * 64);
            assert!(info.coefficient_bytes <= 64 << 20);
            if channels != 2 || (from, to) == (48_000, 44_101) {
                assert_eq!(info.additional_batch_input_frames, 0);
            }
        }
    }
    let stereo = Resampler::new(48_000, 44_100, 2, &machine).unwrap();
    assert_eq!(stereo.filter_info().additional_batch_input_frames, 16 * 160);
    let slowest = Resampler::new(1, 2, 1, &machine).unwrap();
    assert_eq!(slowest.filter_info().taps_per_phase, 3);
    assert_eq!(slowest.filter_info().lookahead_input_frames, 1);
}

#[test]
fn interpolated_filters_reach_the_storage_limit() {
    for (from, to) in [(768_000, 44_101), (51_150, 44_101)] {
        let design = select(from, to, FilterLength::Custom(8_183), FilterLengthPolicy::Generic);
        assert_eq!(design.unwrap().taps, 8_183);
        assert_eq!(
            select(from, to, FilterLength::Custom(8_185), FilterLengthPolicy::Generic),
            Err(Error::InvalidFilterLength {
                requested: 8_185,
                maximum: 8_183,
            })
        );
    }
}

#[test]
fn narrow_samples_lose_nothing_but_the_final_rounding() {
    let machine = Machine::new(scattered);
    let narrow: Vec<u32> = signal(500, 2).iter().map(|&x| (x as f32).to_bits()).collect();
    let wide: Vec<u64> = narrow
        .iter()
        .map(|&x| f64::from(f32::from_bits(x)).to_bits())
        .collect();
    for pair in [(48_000, 44_100), (44_100, 48_000), (48_000, 44_101), (48_000, 48_000)] {
        let mut a = custom(&machine, pair, 2, 65);
        let mut b = custom(&machine, pair, 2, 65);
        let expected: Vec<u32> = b
            .process_f64(&Binary64, &wide, true)
            .unwrap()
            .into_iter()
            .map(|x| (f64::from_bits(x) as f32).to_bits())
            .collect();
        assert_eq!(a.process_f32(&Binary64, &narrow, true).unwrap(), expected);
    }
}
