//! Fingerprints of filters and streams over the complete rate matrix, against a direct
//! evaluation of every output frame.

use std::cell::RefCell;
use std::sync::Arc;
use tuneout_resampler::arithmetic::Arithmetic;
use tuneout_resampler::backend::CpuFeatures;
use tuneout_resampler::cache::BankKey;
use tuneout_resampler::design::{gcd, Design};
use tuneout_resampler::host::Host;
use tuneout_resampler::{FilterLength, FilterLengthPolicy, Resampler};

/// Plain binary64 arithmetic.
struct Binary64;

impl Arithmetic for Binary64 {
    fn plus(&self, a: u64, b: u64) -> u64 {
        (f64::from_bits(a) + f64::from_bits(b)).to_bits()
    }

    fn minus(&self, a: u64, b: u64) -> u64 {
        (f64::from_bits(a) - f64::from_bits(b)).to_bits()
    }

    fn times(&self, a: u64, b: u64) -> u64 {
        (f64::from_bits(a) * f64::from_bits(b)).to_bits()
    }

    fn over(&self, a: u64, b: u64) -> u64 {
        (f64::from_bits(a) / f64::from_bits(b)).to_bits()
    }

    fn root(&self, a: u64) -> u64 {
        f64::from_bits(a).sqrt().to_bits()
    }

    fn less(&self, a: u64, b: u64) -> bool {
        f64::from_bits(a) < f64::from_bits(b)
    }

    fn larger(&self, a: u64, b: u64) -> u64 {
        f64::from_bits(a).max(f64::from_bits(b)).to_bits()
    }

    fn nearest(&self, a: u64) -> u64 {
        f64::from_bits(a).round().to_bits()
    }

    fn as_integer(&self, a: u64) -> i64 {
        f64::from_bits(a) as i64
    }

    fn of_integer(&self, n: i64) -> u64 {
        (n as f64).to_bits()
    }

    fn promote(&self, sample: u32) -> u64 {
        f64::from(f32::from_bits(sample)).to_bits()
    }

    fn narrow(&self, sample: u64) -> u32 {
        (f64::from_bits(sample) as f32).to_bits()
    }
}

fn pairs() -> Vec<(u32, u32)> {
    let rates = [
        8_000, 11_025, 12_000, 16_000, 22_050, 24_000, 32_000, 44_100, 48_000, 88_200, 96_000,
        176_400, 192_000, 352_800, 384_000, 705_600, 768_000,
    ];
    let mut pairs: Vec<(u32, u32)> = rates
        .iter()
        .flat_map(|&from| rates.iter().map(move |&to| (from, to)))
        .collect();
    for rate in rates {
        for neighbor in [rate - 1, rate + 1] {
            pairs.extend([(rate, neighbor), (neighbor, rate)]);
        }
    }
    pairs.sort_unstable();
    pairs.dedup();
    pairs
}

/// A processor with every vector unit, and a short memory for banks.
struct Machine {
    make: fn(u32, u32, Design) -> Vec<u64>,
    banks: RefCell<Vec<(BankKey, Arc<Vec<u64>>)>>,
}

impl Machine {
    fn new(make: fn(u32, u32, Design) -> Vec<u64>) -> Self {
        Machine {
            make,
            banks: RefCell::new(Vec::new()),
        }
    }
}

impl Host for Machine {
    fn features(&self) -> CpuFeatures {
        CpuFeatures {
            avx512f: true,
            avx: true,
            neon: false,
        }
    }

    fn shared_coefficients(&self, from: u32, to: u32, design: Design) -> Arc<Vec<u64>> {
        let key = BankKey::new(from, to, design);
        let mut banks = self.banks.borrow_mut();
        if let Some((_, bank)) = banks.iter().find(|(known, _)| *known == key) {
            return bank.clone();
        }
        let bank = Arc::new((self.make)(from, to, design));
        if banks.len() == 4 {
            banks.remove(0);
        }
        banks.push((key, bank.clone()));
        bank
    }
}

/// Coefficients that cost little to make and differ from tap to tap.
fn scattered(_from: u32, _to: u32, design: Design) -> Vec<u64> {
    let scale = 1.0 / design.taps as f64 / 2_147_483_648.0;
    (0..((design.phases + 1) * design.taps) as u64)
        .map(|i| {
            let mixed = i.wrapping_mul(0x9e37_79b9_7f4a_7c15) >> 32;
            (mixed as u32 as i32 as f64 * scale).to_bits()
        })
        .collect()
}

fn signal(frames: usize, channels: usize) -> Vec<f64> {
    (0..frames * channels)
        .map(|i| {
            let bits = (i as u64)
                .wrapping_mul(6364136223846793005)
                .wrapping_add(1442695040888963407);
            (bits >> 32) as i32 as f64 / 2147483648.0 * 0.5
        })
        .collect()
}

fn bits(values: &[f64]) -> Vec<u64> {
    values.iter().map(|value| value.to_bits()).collect()
}

const HEADER: &str = "from,to,coefficients,frames,f64,f32";
const PRESET_HEADER: &str = "from,to,preset,taps,coefficients";

fn fingerprint(values: &[u64]) -> u64 {
    values.iter().fold(0xcbf29ce484222325_u64, |hash, &value| {
        (hash ^ value).wrapping_mul(0x100000001b3)
    })
}

fn assert_fingerprints(header: &str, count: usize, expected: Vec<String>, actual: Vec<String>) {
    assert_eq!(expected.len(), count);
    assert_eq!(actual.len(), expected.len());
    for (actual, expected) in actual.iter().zip(expected) {
        assert_eq!(*actual, expected, "{header}");
    }
}

fn rows(policy: FilterLengthPolicy) -> Vec<String> {
    let machine = Machine::new(scattered);
    let wide = signal(257, 2);
    let input = bits(&wide);
    let input32: Vec<u32> = wide.iter().map(|&x| (x as f32).to_bits()).collect();
    pairs()
        .into_iter()
        .map(|(from, to)| {
            let mut r = Resampler::with_filter_length_policy(
                from,
                to,
                2,
                FilterLength::Standard,
                policy,
                &machine,
            )
            .ok()
            .unwrap();
            let coefficients = fingerprint(r.coefficients());
            let mut output = Vec::new();
            for chunk in input.chunks(113 * 2) {
                output.extend(r.process_f64(&Binary64, chunk, false).unwrap());
            }
            output.extend(r.process_f64(&Binary64, &[], true).unwrap());
            let frames = output.len() / 2;
            let f64_hash = fingerprint(&output);
            r.reset();
            output.clear();
            let widened = |samples: Vec<u32>| {
                samples
                    .into_iter()
                    .map(|bits| f64::from(f32::from_bits(bits)).to_bits())
            };
            for chunk in input32.chunks(67 * 2) {
                output.extend(widened(r.process_f32(&Binary64, chunk, false).unwrap()));
            }
            output.extend(widened(r.process_f32(&Binary64, &[], true).unwrap()));
            format!(
                "{from},{to},{coefficients:016x},{frames},{f64_hash:016x},{:016x}",
                fingerprint(&output)
            )
        })
        .collect()
}

fn preset_rows(policy: FilterLengthPolicy) -> Vec<String> {
    let machine = Machine::new(scattered);
    pairs()
        .into_iter()
        .flat_map(|(from, to)| {
            [
                ("standard", FilterLength::Standard),
                ("long", FilterLength::Long),
                ("extra-long", FilterLength::ExtraLong),
            ]
            .map(|(name, length)| {
                let r = Resampler::with_filter_length_policy(from, to, 1, length, policy, &machine)
                    .ok()
                    .unwrap();
                format!(
                    "{from},{to},{name},{},{:016x}",
                    r.filter_info().taps_per_phase,
                    fingerprint(r.coefficients())
                )
            })
        })
        .collect()
}

/// Phases and taps of a preset, by the length rules in plain binary64 arithmetic.
fn reference_design(
    from: u32,
    to: u32,
    preset: usize,
    policy: FilterLengthPolicy,
) -> (usize, usize) {
    let denominator = (to / gcd(from, to)) as usize;
    let exact = denominator <= 2_048;
    let phases = if exact { denominator } else { 1_024 };
    let time = (f64::from(from) * 0.16) as usize;
    let mut limit = (8_388_608 / (phases + 1)).min(65_535).min(time).max(3);
    if limit % 2 == 0 {
        limit -= 1;
    }
    let ratio = (f64::from(to) / f64::from(from)).min(1.0);
    let standard = match policy {
        FilterLengthPolicy::Generic => {
            (1_664 * u64::from(from)).div_ceil(u64::from(from.min(to))) as usize | 1
        }
        FilterLengthPolicy::Fixed => {
            let minimum = if !exact {
                0
            } else if to == 44_100 && from > to {
                match from {
                    176_400.. => 2_815,
                    96_000.. => 3_583,
                    88_200.. => 1_919,
                    _ => 1_663,
                }
            } else if from < to {
                match from {
                    0..=44_100 => 1_151,
                    44_101..=48_000 => 959,
                    _ => 767,
                }
            } else if ratio <= 0.70 {
                767
            } else if ratio < 0.85 {
                639
            } else {
                0
            };
            minimum.max((512.0 / ratio).ceil() as usize | 1)
        }
    };
    let taps = match preset {
        0 => standard,
        1 => (standard * 7).div_ceil(4) | 1,
        _ => (standard * 2) | 1,
    };
    (phases, taps.min(limit))
}

fn reference_bank(phases: usize, taps: usize) -> Vec<u64> {
    let design = Design {
        phases,
        taps,
        beta_bits: 0,
        rolloff_bits: 0,
    };
    scattered(0, 0, design)
}

/// One for smooth tails, zero for rough ones, and a smooth step between.
fn tail_blend(window: &[f64]) -> f64 {
    let power = window.iter().fold(0.0, |sum, x| sum + x * x);
    let change = window
        .windows(2)
        .fold(0.0, |sum, pair| sum + (pair[1] - pair[0]) * (pair[1] - pair[0]));
    let signal_rms = (power / window.len().max(1) as f64).sqrt();
    let change_rms = (change / (window.len() - 1).max(1) as f64).sqrt();
    let roughness = change_rms / signal_rms.max(1e-12);
    let x = ((roughness - 0.40) / (0.80 - 0.40)).clamp(0.0, 1.0);
    1.0 - x * x * (3.0 - 2.0 * x)
}

/// Every output frame evaluated on its own, from the whole input continued at both ends.
fn direct(
    input: &[f64],
    from: u32,
    to: u32,
    phases: usize,
    taps: usize,
    bank: &[f64],
) -> Vec<f64> {
    let divisor = gcd(from, to);
    let (num, den) = (u64::from(from / divisor), u64::from(to / divisor));
    let total = input.len() / 2;
    let half = taps / 2;
    let mut padded = Vec::new();
    let blends: Vec<f64> = (0..2)
        .map(|ch| {
            let window: Vec<f64> = (total.saturating_sub(64)..total)
                .map(|frame| input[frame * 2 + ch])
                .collect();
            tail_blend(&window)
        })
        .collect();
    for frame in -(half as i64)..(total + half + 1) as i64 {
        for ch in 0..2 {
            let at = |frame: i64| input[frame as usize * 2 + ch];
            let last = total as i64 - 1;
            padded.push(if frame < 0 {
                2.0 * at(0) - at((-frame).min(last))
            } else if frame <= last {
                at(frame)
            } else {
                let mirrored = at((2 * last - frame).max(0));
                mirrored + ((2.0 * at(last) - mirrored) - mirrored) * blends[ch]
            });
        }
    }
    let frames = (total as u64 * den).div_ceil(num);
    let mut output = Vec::new();
    for k in 0..frames {
        let position = k * num;
        let (index, phase) = ((position / den) as usize, position % den);
        let samples = &padded[index * 2..(index + taps) * 2];
        let (mut left, mut right) = (0.0, 0.0);
        if den == phases as u64 {
            let row = &bank[phase as usize * taps..(phase as usize + 1) * taps];
            for (frame, weight) in samples.chunks_exact(2).zip(row) {
                left += frame[0] * weight;
                right += frame[1] * weight;
            }
        } else {
            let exact = phase as f64 / den as f64 * phases as f64;
            let low = exact.floor() as usize;
            let blend = exact - low as f64;
            let lower = &bank[low * taps..(low + 1) * taps];
            let upper = &bank[(low + 1) * taps..(low + 2) * taps];
            for ((frame, a), b) in samples.chunks_exact(2).zip(lower).zip(upper) {
                let weight = a + (b - a) * blend;
                left += frame[0] * weight;
                right += frame[1] * weight;
            }
        }
        output.extend([left, right]);
    }
    output
}

fn reference_rows(policy: FilterLengthPolicy) -> Vec<String> {
    let input = signal(257, 2);
    let rounded: Vec<f64> = input.iter().map(|&x| f64::from(x as f32)).collect();
    pairs()
        .into_iter()
        .map(|(from, to)| {
            if from == to {
                let coefficients = fingerprint(&[]);
                let (wide, narrow) = (fingerprint(&bits(&input)), fingerprint(&bits(&rounded)));
                return format!("{from},{to},{coefficients:016x},257,{wide:016x},{narrow:016x}");
            }
            let (phases, taps) = reference_design(from, to, 0, policy);
            let stored = reference_bank(phases, taps);
            let bank: Vec<f64> = stored.iter().map(|&bits| f64::from_bits(bits)).collect();
            let wide = direct(&input, from, to, phases, taps, &bank);
            let narrow: Vec<f64> = direct(&rounded, from, to, phases, taps, &bank)
                .into_iter()
                .map(|x| f64::from(x as f32))
                .collect();
            format!(
                "{from},{to},{:016x},{},{:016x},{:016x}",
                fingerprint(&stored),
                wide.len() / 2,
                fingerprint(&bits(&wide)),
                fingerprint(&bits(&narrow))
            )
        })
        .collect()
}

fn reference_preset_rows(policy: FilterLengthPolicy) -> Vec<String> {
    pairs()
        .into_iter()
        .flat_map(|(from, to)| {
            ["standard", "long", "extra-long"].map(|name| {
                if from == to {
                    return format!("{from},{to},{name},0,{:016x}", fingerprint(&[]));
                }
                let preset = match name {
                    "standard" => 0,
                    "long" => 1,
                    _ => 2,
                };
                let (phases, taps) = reference_design(from, to, preset, policy);
                let stored = reference_bank(phases, taps);
                format!("{from},{to},{name},{taps},{:016x}", fingerprint(&stored))
            })
        })
        .collect()
}

#[test]
fn complete_rate_matrix_matches_uniform_precision_fingerprints() {
    assert_fingerprints(
        HEADER,
        357,
        reference_rows(FilterLengthPolicy::Generic),
        rows(FilterLengthPolicy::Generic),
    );
}

#[test]
fn every_preset_matches_reference_banks_across_the_complete_rate_matrix() {
    assert_fingerprints(
        PRESET_HEADER,
        357 * 3,
        reference_preset_rows(FilterLengthPolicy::Generic),
        preset_rows(FilterLengthPolicy::Generic),
    );
}

#[test]
fn fixed_standard_matches_reference_coefficients_and_output_for_every_pair() {
    assert_fingerprints(
        HEADER,
        357,
        reference_rows(FilterLengthPolicy::Fixed),
        rows(FilterLengthPolicy::Fixed),
    );
}

#[test]
fn fixed_presets_match_reference_banks_for_every_pair() {
    assert_fingerprints(
        PRESET_HEADER,
        357 * 3,
        reference_preset_rows(FilterLengthPolicy::Fixed),
        preset_rows(FilterLengthPolicy::Fixed),
    );
}
