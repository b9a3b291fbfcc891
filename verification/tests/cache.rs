//! Bounds, order and identity of shared filter banks.

use std::sync::{Arc, OnceLock};
use tuneout_resampler::cache::{BankCache, BankKey};
use tuneout_resampler::design::{select, Design, BETA_BITS, ROLLOFF_BITS};
use tuneout_resampler::{FilterLength, FilterLengthPolicy};

type Slot = OnceLock<Arc<Vec<f64>>>;

fn key(from: u32) -> BankKey {
    BankKey::new(
        from,
        32001,
        Design {
            phases: 1,
            taps: 3,
            beta_bits: 20.0_f64.to_bits(),
            rolloff_bits: 1.0_f64.to_bits(),
        },
    )
}

fn reserve(cache: &mut BankCache<Slot>, key: BankKey) -> Arc<Slot> {
    cache.reserve(key, OnceLock::new())
}

fn pairs() -> Vec<(u32, u32)> {
    let rates = [
        8_000, 11_025, 12_000, 16_000, 22_050, 24_000, 32_000, 44_100, 48_000, 88_200, 96_000,
        176_400, 192_000, 352_800, 384_000, 705_600, 768_000,
    ];
    let mut pairs: Vec<(u32, u32)> = rates
        .iter()
        .flat_map(|&from| rates.iter().map(move |&to| (from, to)))
        .collect();
    for rate in rates {
        for neighbor in [rate - 1, rate + 1] {
            pairs.extend([(rate, neighbor), (neighbor, rate)]);
        }
    }
    pairs.sort_unstable();
    pairs.dedup();
    pairs
}

#[test]
fn bank_cache_enforces_bytes_lru_entries_and_live_bank_lifetime() {
    let mut cache: BankCache<Slot> = BankCache::new(96, 2);
    let a = reserve(&mut cache, key(32000));
    let b = reserve(&mut cache, key(48000));
    let live = b.get_or_init(|| Arc::new(vec![0.25; 6])).clone();
    assert!(Arc::ptr_eq(&a, &reserve(&mut cache, key(32000))));
    let _c = reserve(&mut cache, key(64000));
    assert_eq!(cache.reserved_bytes(), 96);
    assert_eq!(cache.len(), 2);
    assert!(!cache.contains(key(48000)));
    assert_eq!(live.as_slice(), &[0.25; 6]);
    assert!(!Arc::ptr_eq(&b, &reserve(&mut cache, key(48000))));
    let mut huge = key(10000);
    huge.taps = usize::MAX;
    let _uncached = reserve(&mut cache, huge);
    assert_eq!(cache.reserved_bytes(), 96);
    assert_eq!(cache.len(), 2);
    let mut one: BankCache<Slot> = BankCache::new(1024, 1);
    reserve(&mut one, key(32000));
    reserve(&mut one, key(48000));
    assert_eq!(one.len(), 1);
    assert_eq!(one.reserved_bytes(), 48);
}

#[test]
fn cache_key_includes_actual_rates_and_every_design_parameter() {
    let base = key(32000);
    let mut variants = [base; 6];
    variants[0].from_rate += 1;
    variants[1].to_rate += 1;
    variants[2].phases += 1;
    variants[3].taps += 2;
    variants[4].beta_bits += 1;
    variants[5].rolloff_bits -= 1;
    let mut cache: BankCache<Slot> = BankCache::new(4096, 8);
    let original = reserve(&mut cache, base);
    for changed in variants {
        assert!(!Arc::ptr_eq(&original, &reserve(&mut cache, changed)));
    }
}

#[test]
fn length_presets_share_cache_entries_only_when_the_effective_design_matches() {
    let mut cache: BankCache<Slot> = BankCache::new(64 * 1024 * 1024, 8);
    for (from, to) in pairs().into_iter().chain([(1, 2)]) {
        let key = |length| {
            BankKey::new(
                from,
                to,
                select(from, to, length, FilterLengthPolicy::Generic).unwrap(),
            )
        };
        let standard = reserve(&mut cache, key(FilterLength::Standard));
        let long_key = key(FilterLength::Long);
        let long = reserve(&mut cache, long_key);
        let custom = reserve(&mut cache, key(FilterLength::Custom(long_key.taps)));
        assert!(Arc::ptr_eq(&long, &custom));
        // Resource limits can make different presets select the same length.
        assert_eq!(
            Arc::ptr_eq(&standard, &long),
            key(FilterLength::Standard).taps == long_key.taps
        );
    }
}

#[test]
fn shared_slots_point_to_the_same_bank() {
    let mut cache: BankCache<Slot> = BankCache::new(4096, 8);
    let first = reserve(&mut cache, key(32000));
    let second = reserve(&mut cache, key(32000));
    first.set(Arc::new(vec![0.5])).unwrap();
    assert_eq!(second.get().unwrap().as_slice(), &[0.5]);
}

#[test]
fn banks_beyond_the_limits_are_handed_out_but_not_kept() {
    let mut none: BankCache<Slot> = BankCache::new(4096, 0);
    let first = reserve(&mut none, key(32000));
    assert!(!Arc::ptr_eq(&first, &reserve(&mut none, key(32000))));
    assert_eq!(none.len(), 0);
    let mut small: BankCache<Slot> = BankCache::new(47, 8);
    reserve(&mut small, key(32000));
    assert_eq!((small.len(), small.reserved_bytes()), (0, 0));
    let mut uncountable = key(32000);
    uncountable.phases = usize::MAX;
    uncountable.taps = 0;
    let mut cache: BankCache<Slot> = BankCache::new(4096, 8);
    reserve(&mut cache, uncountable);
    assert_eq!(cache.len(), 0);
}

#[test]
fn only_as_many_banks_give_way_as_necessary() {
    let mut cache: BankCache<Slot> = BankCache::new(200, 8);
    for from in [1, 2, 3, 4] {
        reserve(&mut cache, key(from));
    }
    assert_eq!((cache.len(), cache.reserved_bytes()), (4, 192));
    // Most recently used last: 2, 3, 4, 1.
    reserve(&mut cache, key(1));
    let mut larger = key(5);
    larger.taps = 5;
    reserve(&mut cache, larger);
    // 80 bytes more leave room for two of the smaller banks.
    assert_eq!((cache.len(), cache.reserved_bytes()), (3, 176));
    assert!(!cache.contains(key(2)) && !cache.contains(key(3)));
    assert!(cache.contains(key(4)) && cache.contains(key(1)) && cache.contains(larger));
}

#[test]
fn designs_carry_the_bits_of_their_window_and_cutoff() {
    assert_eq!(BETA_BITS, 20.0_f64.to_bits());
    assert_eq!(ROLLOFF_BITS, 1.0_f64.to_bits());
    let design = select(48_000, 44_100, FilterLength::Standard, FilterLengthPolicy::Generic);
    let key = BankKey::new(48_000, 44_100, design.unwrap());
    assert_eq!(
        (key.phases, key.taps, key.beta_bits, key.rolloff_bits),
        (147, 1_813, BETA_BITS, ROLLOFF_BITS)
    );
}
