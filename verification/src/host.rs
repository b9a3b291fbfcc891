//! What a converter asks of the machine it runs on.

use std::sync::Arc;

use vstd::prelude::*;
use vstd::rwlock::{RwLock, RwLockPredicate};

use crate::arithmetic::{follows, Arithmetic, Model};
use crate::backend::CpuFeatures;
use crate::bank::{bank_of, computable, shape_of};
use crate::cache::{
    all_fit, share, BankCache, BankKey, MAX_CACHED_BANKS, MAX_CACHED_BYTES,
};
use crate::design::Design;
use crate::precision::{precise_coefficients, precise_model, prototype_of};

verus! {

/// What a converter asks of the machine it runs on.
///
/// Nothing is assumed of an implementation.
pub trait Host {
    /// Vector instructions of the processor.
    fn features(&self) -> CpuFeatures;

    /// The coefficient bank of a rate pair and design, shared with every other stream that
    /// uses it.
    fn shared_coefficients(&self, from_rate: u32, to_rate: u32, design: Design) -> Arc<Vec<u64>>
        requires
            computable(from_rate, to_rate, design),
    ;
}

/// Banks of a host have the size that their design asks for.
pub open spec fn banks_fit<H: Host>(host: &H) -> bool {
    forall|from_rate: u32, to_rate: u32, design: Design, bank: Arc<Vec<u64>>| #[trigger]
        call_ensures(H::shared_coefficients, (host, from_rate, to_rate, design), bank)
            && computable(from_rate, to_rate, design) ==> bank@.len() == (design.phases + 1)
            * design.taps
}

/// A host answers the same request always the same.
pub open spec fn steady<H: Host>(host: &H) -> bool {
    &&& forall|
        from_rate: u32,
        to_rate: u32,
        design: Design,
        bank: Arc<Vec<u64>>,
        other: Arc<Vec<u64>>,
    |
        #![trigger
            call_ensures(H::shared_coefficients, (host, from_rate, to_rate, design), bank),
            call_ensures(H::shared_coefficients, (host, from_rate, to_rate, design), other),
        ]
        call_ensures(H::shared_coefficients, (host, from_rate, to_rate, design), bank)
            && call_ensures(H::shared_coefficients, (host, from_rate, to_rate, design), other)
            ==> bank@ == other@
    &&& forall|features: CpuFeatures, other: CpuFeatures|
        #![trigger
            call_ensures(H::features, (host,), features),
            call_ensures(H::features, (host,), other),
        ]
        call_ensures(H::features, (host,), features) && call_ensures(H::features, (host,), other)
            ==> features == other
}

/// `bank` holds the coefficients of a rate pair and design at extended precision.
pub open spec fn precise_bank<A: Arithmetic>(
    arithmetic: &A,
    from_rate: u32,
    to_rate: u32,
    design: Design,
    bank: Seq<u64>,
) -> bool {
    &&& bank.len() == (design.phases + 1) * design.taps
    &&& forall|model: Model| #[trigger]
        follows(arithmetic, model) ==> bank == bank_of(
            precise_model(model, prototype_of(from_rate, to_rate, design)),
            shape_of(from_rate, to_rate, design),
        )
}

/// Every bank of a host holds the coefficients at extended precision.
pub open spec fn precise<H: Host, A: Arithmetic>(host: &H, arithmetic: &A) -> bool {
    forall|from_rate: u32, to_rate: u32, design: Design, bank: Arc<Vec<u64>>| #[trigger]
        call_ensures(H::shared_coefficients, (host, from_rate, to_rate, design), bank)
            ==> precise_bank(arithmetic, from_rate, to_rate, design, bank@)
}

/// The design of a key.
pub open spec fn design_of_key(key: BankKey) -> Design {
    Design {
        phases: key.phases,
        taps: key.taps,
        beta_bits: key.beta_bits,
        rolloff_bits: key.rolloff_bits,
    }
}

/// What a slot may hold: nothing yet, or the bank of its key.
pub struct SlotContent<A> {
    /// Arithmetic that the bank is computed with.
    pub arithmetic: A,
    /// What the coefficients depend on.
    pub key: BankKey,
}

impl<A: Arithmetic> RwLockPredicate<Option<Arc<Vec<u64>>>> for SlotContent<A> {
    open spec fn inv(self, content: Option<Arc<Vec<u64>>>) -> bool {
        content matches Some(bank) ==> precise_bank(
            &self.arithmetic,
            self.key.from_rate,
            self.key.to_rate,
            design_of_key(self.key),
            bank@,
        )
    }
}

/// A bank that is computed once, by the first stream that asks for it.
pub type Slot<A> = RwLock<Option<Arc<Vec<u64>>>, SlotContent<A>>;

/// A slot that holds nothing but the bank of a key.
pub open spec fn slot_of<A: Arithmetic>(arithmetic: A) -> spec_fn(BankKey, Slot<A>) -> bool {
    |key: BankKey, slot: Slot<A>| slot.pred() == (SlotContent { arithmetic, key })
}

/// What the cache may hold: slots of the banks of their keys.
pub struct CacheContent<A> {
    /// Arithmetic that the banks are computed with.
    pub arithmetic: A,
}

impl<A: Arithmetic> RwLockPredicate<BankCache<Slot<A>>> for CacheContent<A> {
    open spec fn inv(self, cache: BankCache<Slot<A>>) -> bool {
        cache.wf() && all_fit(cache.entries(), slot_of(self.arithmetic))
    }
}

/// The bank that a slot holds, or else the computed one: a bank that is held is never
/// computed again.
fn filled<A: Arithmetic>(
    arithmetic: &A,
    content: Option<Arc<Vec<u64>>>,
    from_rate: u32,
    to_rate: u32,
    design: Design,
) -> (bank: Arc<Vec<u64>>)
    requires
        computable(from_rate, to_rate, design),
        content matches Some(held) ==> precise_bank(
            arithmetic,
            from_rate,
            to_rate,
            design,
            held@,
        ),
    ensures
        content matches Some(held) ==> bank == held,
        precise_bank(arithmetic, from_rate, to_rate, design, bank@),
{
    match content {
        Some(held) => held,
        None => Arc::new(precise_coefficients(arithmetic, from_rate, to_rate, design)),
    }
}

/// A host whose streams share their banks, also between threads.
///
/// A slot is reserved while the cache is locked, and filled after it was released, so
/// computing one bank never keeps a stream from another, and streams that ask for the same
/// bank at a time share one computation.
pub struct SharedBanks<A: Arithmetic> {
    arithmetic: A,
    features: CpuFeatures,
    cache: RwLock<BankCache<Slot<A>>, CacheContent<A>>,
}

impl<A: Arithmetic> SharedBanks<A> {
    /// Arithmetic that the banks are computed with.
    pub closed spec fn arithmetic(&self) -> A {
        self.arithmetic
    }

    /// Vector instructions of the processor.
    pub closed spec fn features_of(&self) -> CpuFeatures {
        self.features
    }

    /// The cache holds slots of the banks that this host computes.
    #[verifier::type_invariant]
    closed spec fn wf(&self) -> bool {
        self.cache.pred() == (CacheContent { arithmetic: self.arithmetic })
    }

    /// A host without any bank yet.
    pub fn new(arithmetic: A, features: CpuFeatures) -> (host: Self)
        ensures
            host.arithmetic() == arithmetic,
            host.features_of() == features,
    {
        let cache: BankCache<Slot<A>> = BankCache::new(MAX_CACHED_BYTES, MAX_CACHED_BANKS);
        let cache: RwLock<BankCache<Slot<A>>, CacheContent<A>> = RwLock::new(
            cache,
            Ghost(CacheContent { arithmetic }),
        );
        SharedBanks { arithmetic, features, cache }
    }
}

impl<A: Arithmetic> Host for SharedBanks<A> {
    fn features(&self) -> (features: CpuFeatures)
        ensures
            features == self.features_of(),
    {
        self.features
    }

    fn shared_coefficients(&self, from_rate: u32, to_rate: u32, design: Design) -> (bank: Arc<
        Vec<u64>,
    >)
        ensures
            precise_bank(&self.arithmetic(), from_rate, to_rate, design, bank@),
    {
        proof {
            use_type_invariant(self);
        }
        let key: BankKey = BankKey::new(from_rate, to_rate, design);
        let fresh: Slot<A> = RwLock::new(
            None,
            Ghost(SlotContent { arithmetic: self.arithmetic, key }),
        );
        let (mut cache, cache_handle) = self.cache.acquire_write();
        let ghost fits = slot_of(self.arithmetic);
        assert(all_fit(cache.entries(), fits) && fits(key, fresh));
        let slot: Arc<Slot<A>> = cache.reserve(key, fresh);
        cache_handle.release_write(cache);
        assert(fits(key, *slot));
        let (content, slot_handle) = slot.acquire_write();
        let bank: Arc<Vec<u64>> = filled(&self.arithmetic, content, from_rate, to_rate, design);
        let shared: Arc<Vec<u64>> = share(&bank);
        slot_handle.release_write(Some(bank));
        shared
    }
}

/// Shared banks hold the coefficients at extended precision, whether they were cached or
/// not, and have the size that their design asks for.
pub proof fn law_shared_banks_are_precise<A: Arithmetic>(host: &SharedBanks<A>)
    ensures
        precise(host, &host.arithmetic()),
        banks_fit(host),
{
}

/// Shared banks are always the same for the same rates and design, if the arithmetic is.
pub proof fn law_shared_banks_are_steady<A: Arithmetic>(host: &SharedBanks<A>, model: Model)
    requires
        follows(&host.arithmetic(), model),
    ensures
        steady(host),
{
    assert forall|
        from_rate: u32,
        to_rate: u32,
        design: Design,
        bank: Arc<Vec<u64>>,
        other: Arc<Vec<u64>>,
    |
        #![trigger
            call_ensures(SharedBanks::<A>::shared_coefficients, (host, from_rate, to_rate, design), bank),
            call_ensures(SharedBanks::<A>::shared_coefficients, (host, from_rate, to_rate, design), other),
        ]
        call_ensures(SharedBanks::<A>::shared_coefficients, (host, from_rate, to_rate, design), bank)
            && call_ensures(
            SharedBanks::<A>::shared_coefficients,
            (host, from_rate, to_rate, design),
            other,
        ) implies bank@ == other@ by {
        assert(precise_bank(&host.arithmetic(), from_rate, to_rate, design, bank@));
        assert(precise_bank(&host.arithmetic(), from_rate, to_rate, design, other@));
    }
}

} // verus!
