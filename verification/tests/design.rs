//! Length rules, resource limits, and how designs react to scaled rates.

use tuneout_resampler::design::{divide_up, fixed_standard_taps, gcd, select};
use tuneout_resampler::{Error, FilterLength, FilterLengthPolicy};

#[test]
fn fixed_thresholds_retain_standard_lengths() {
    for (from, to, taps) in [
        (44_075, 88_150, 1_151),
        (44_100, 88_200, 1_151),
        (44_125, 88_250, 959),
        (48_000, 96_000, 959),
        (48_025, 96_050, 767),
        (44_125, 44_100, 1_663),
        (88_175, 44_100, 1_663),
        (88_200, 44_100, 1_919),
        (88_225, 44_100, 1_919),
        (95_975, 44_100, 1_919),
        (96_000, 44_100, 3_583),
        (96_025, 44_100, 3_583),
        (176_375, 44_100, 3_583),
        (176_400, 44_100, 2_815),
        (176_425, 44_100, 2_815),
        (96_001, 44_100, 1_115),
        (100_000, 69_900, 767),
        (100_000, 70_000, 767),
        (100_000, 70_100, 731),
        (100_000, 84_900, 639),
        (100_000, 85_000, 603),
        (100_000, 85_100, 603),
        (65_504_000, 65_536_000, 767),
        (65_536_000, 65_568_000, 513),
    ] {
        let design = select(from, to, FilterLength::Standard, FilterLengthPolicy::Fixed).unwrap();
        assert_eq!(design.taps, taps, "{from}->{to}");
    }
}

#[test]
fn preset_and_custom_limits_cover_support_time_bank_size_and_extreme_rates() {
    // Independent boundary cases for the minimum, time, bank, and tap caps.
    for (from, to, maximum) in [
        (1, 2, 3),
        (8_000, 11_025, 1_279),
        (48_000, 44_101, 7_679),
        (128_000, 128_001, 8_183),
        (u32::MAX, u32::MAX - 4, 8_183),
        (u32::MAX, 1, 65_535),
    ] {
        for policy in [FilterLengthPolicy::Generic, FilterLengthPolicy::Fixed] {
            let mut previous = 0;
            for length in [
                FilterLength::Standard,
                FilterLength::Long,
                FilterLength::ExtraLong,
            ] {
                let design = select(from, to, length, policy).unwrap();
                assert!(design.taps >= 3 && design.taps >= previous && design.taps <= maximum);
                assert_eq!(design.taps % 2, 1);
                assert!((design.phases + 1) * design.taps * 8 <= 64 * 1024 * 1024);
                previous = design.taps;
            }
            assert_eq!(
                select(from, to, FilterLength::Custom(maximum), policy)
                    .unwrap()
                    .taps,
                maximum
            );
            assert!(matches!(
                select(from, to, FilterLength::Custom(maximum + 2), policy),
                Err(Error::InvalidFilterLength { maximum: actual, .. }) if actual == maximum
            ));
        }
    }
}

/// The fixed rule in plain binary64 arithmetic.
fn float_fixed_taps(from: u32, to: u32, exact: bool) -> u64 {
    let ratio = (f64::from(to) / f64::from(from)).min(1.0);
    let minimum = if !exact {
        0
    } else if to == 44_100 && from > to {
        match from {
            176_400.. => 2_815,
            96_000.. => 3_583,
            88_200.. => 1_919,
            _ => 1_663,
        }
    } else if from < to {
        match from {
            0..=44_100 => 1_151,
            44_101..=48_000 => 959,
            _ => 767,
        }
    } else if ratio <= 0.70 {
        767
    } else if ratio < 0.85 {
        639
    } else {
        0
    };
    minimum.max((512.0 / ratio).ceil() as u64 | 1)
}

#[test]
fn integer_rounding_agrees_with_binary64_division() {
    let mut state = 0x2545_f491_4f6c_dd1du64;
    let mut next = || {
        state ^= state << 13;
        state ^= state >> 7;
        state ^= state << 17;
        state
    };
    for _ in 0..200_000 {
        let from = (next() >> 32) as u32 >> (next() % 32);
        let to = (next() >> 32) as u32 >> (next() % 32);
        if from == 0 || to == 0 {
            continue;
        }
        for exact in [false, true] {
            assert_eq!(
                fixed_standard_taps(from, to, exact),
                float_fixed_taps(from, to, exact),
                "{from}->{to}"
            );
        }
    }
    // Quotients whose double rounding misses the exact one.
    for from in 1..4_000u32 {
        for to in [512, 1_024, 737, 797, 1_000] {
            assert_eq!(
                fixed_standard_taps(from, to, false),
                float_fixed_taps(from, to, false),
                "{from}->{to}"
            );
        }
    }
}

#[test]
fn divisors_and_quotients_have_exact_values() {
    assert_eq!(gcd(48_000, 44_100), 300);
    assert_eq!(gcd(0, 7), 7);
    assert_eq!(gcd(7, 0), 7);
    assert_eq!(gcd(u32::MAX, u32::MAX - 4), 1);
    assert_eq!(divide_up(10, 5), 2);
    assert_eq!(divide_up(11, 5), 3);
    assert_eq!(divide_up(0, 5), 0);
}

#[test]
fn presets_scale_the_standard_length_and_custom_lengths_ignore_the_policy() {
    let taps = |length, policy| select(96_000, 44_100, length, policy).unwrap().taps;
    assert_eq!(taps(FilterLength::Standard, FilterLengthPolicy::Generic), 3_623);
    assert_eq!(taps(FilterLength::Long, FilterLengthPolicy::Generic), 6_341);
    assert_eq!(taps(FilterLength::ExtraLong, FilterLengthPolicy::Generic), 7_247);
    assert_eq!(taps(FilterLength::Standard, FilterLengthPolicy::Fixed), 3_583);
    assert_eq!(taps(FilterLength::Long, FilterLengthPolicy::Fixed), 6_271);
    assert_eq!(taps(FilterLength::ExtraLong, FilterLengthPolicy::Fixed), 7_167);
    for policy in [FilterLengthPolicy::Generic, FilterLengthPolicy::Fixed] {
        assert_eq!(taps(FilterLength::Custom(4_095), policy), 4_095);
    }
}

#[test]
fn messages_state_the_limits_that_were_missed() {
    assert_eq!(
        Error::ZeroSampleRate.message(),
        "sample rates must be nonzero"
    );
    assert_eq!(
        Error::ZeroChannels.message(),
        "channel count must be nonzero"
    );
    assert_eq!(
        Error::InvalidFilterLength { requested: 4, maximum: 1_279 }.message(),
        "filter length must be odd and between 3 and 1279 taps (requested 4)"
    );
    assert_eq!(
        Error::IncompleteFrame { samples: 5, channels: 2 }.message(),
        "5 samples do not form complete 2-channel frames"
    );
    assert_eq!(
        Error::StreamFinished.message(),
        "reset the resampler before starting another stream"
    );
    assert_eq!(
        Error::SizeOverflow.message(),
        "sample count exceeds storage or timing limits"
    );
}
