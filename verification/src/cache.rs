//! Shared filter banks, bounded by their number and their memory.
//!
//! The cache holds one slot per bank and hands out shared pointers to it, so a bank
//! outlives its eviction for as long as a stream uses it. A slot is reserved before its
//! bank exists: the bank is built outside the cache, by whoever fills the slot first.

use std::collections::VecDeque;
use std::sync::Arc;

use vstd::prelude::*;

use crate::design::Design;

verus! {

/// Most memory of the banks in the shared cache.
pub const MAX_CACHED_BYTES: usize = 67_108_864;

/// Most banks in the shared cache.
pub const MAX_CACHED_BANKS: usize = 8;

/// Bytes of one coefficient.
pub const COEFFICIENT_BYTES: usize = 8;

/// What the coefficients of a bank depend on.
#[derive(Clone, Copy, Debug, PartialEq, Eq, Structural)]
pub struct BankKey {
    /// Input sample rate.
    pub from_rate: u32,
    /// Output sample rate.
    pub to_rate: u32,
    /// Phase rows.
    pub phases: usize,
    /// Coefficients in each row.
    pub taps: usize,
    /// Bits of the window parameter.
    pub beta_bits: u64,
    /// Bits of the cutoff.
    pub rolloff_bits: u64,
}

impl BankKey {
    /// The key of a rate pair and design.
    pub fn new(from_rate: u32, to_rate: u32, design: Design) -> (key: Self)
        ensures
            key == key_of(from_rate, to_rate, design),
    {
        BankKey {
            from_rate,
            to_rate,
            phases: design.phases,
            taps: design.taps,
            beta_bits: design.beta_bits,
            rolloff_bits: design.rolloff_bits,
        }
    }
}

/// The key of a rate pair and design.
pub open spec fn key_of(from_rate: u32, to_rate: u32, design: Design) -> BankKey {
    BankKey {
        from_rate,
        to_rate,
        phases: design.phases,
        taps: design.taps,
        beta_bits: design.beta_bits,
        rolloff_bits: design.rolloff_bits,
    }
}

/// Rate pairs and designs that differ have different keys.
pub proof fn law_keys_tell_banks_apart(
    from_rate: u32,
    to_rate: u32,
    design: Design,
    other_from_rate: u32,
    other_to_rate: u32,
    other: Design,
)
    ensures
        key_of(from_rate, to_rate, design) == key_of(other_from_rate, other_to_rate, other) <==> (
        from_rate == other_from_rate && to_rate == other_to_rate && design == other),
{
}

/// Memory of the coefficients of a bank.
pub open spec fn bank_bytes(key: BankKey) -> nat {
    ((key.phases + 1) * key.taps * COEFFICIENT_BYTES) as nat
}

/// A bank whose rows can be counted and whose memory stays within a limit.
pub open spec fn cachable(key: BankKey, byte_limit: nat) -> bool {
    key.phases < usize::MAX && bank_bytes(key) <= byte_limit
}

/// A reserved bank.
pub struct BankEntry<S> {
    /// What the coefficients depend on.
    pub key: BankKey,
    /// Memory of the coefficients.
    pub bytes: usize,
    /// The slot that holds the bank once it is built.
    pub bank: Arc<S>,
}

/// Memory of several banks.
pub open spec fn total_bytes<S>(entries: Seq<BankEntry<S>>) -> nat
    decreases entries.len(),
{
    if entries.len() == 0 {
        0
    } else {
        total_bytes(entries.drop_last()) + entries.last().bytes as nat
    }
}

/// A bank with this key is reserved.
pub open spec fn reserves<S>(entries: Seq<BankEntry<S>>, key: BankKey) -> bool {
    exists|i: int| 0 <= i < entries.len() && #[trigger] entries[i].key == key
}

/// Every slot fits its key.
pub open spec fn all_fit<S>(entries: Seq<BankEntry<S>>, fits: spec_fn(BankKey, S) -> bool) -> bool {
    forall|i: int| 0 <= i < entries.len() ==> fits((#[trigger] entries[i]).key, *entries[i].bank)
}

/// Slots of filter banks, the least recently used one first.
pub struct BankCache<S> {
    entries: VecDeque<BankEntry<S>>,
    reserved_bytes: usize,
    byte_limit: usize,
    entry_limit: usize,
}

/// Once the oldest `dropped` banks are gone, there is room for one of `bytes`.
pub open spec fn has_room<S>(
    entries: Seq<BankEntry<S>>,
    dropped: int,
    bytes: nat,
    byte_limit: nat,
    entry_limit: nat,
) -> bool {
    &&& entries.len() - dropped < entry_limit
    &&& total_bytes(entries.skip(dropped)) + bytes <= byte_limit
}

impl<S> BankCache<S> {
    /// The reserved banks, the least recently used one first.
    pub closed spec fn entries(self) -> Seq<BankEntry<S>> {
        self.entries@
    }

    /// Most memory of all banks.
    pub closed spec fn byte_limit(self) -> nat {
        self.byte_limit as nat
    }

    /// Most banks.
    pub closed spec fn entry_limit(self) -> nat {
        self.entry_limit as nat
    }

    /// Memory reserved for all banks.
    pub closed spec fn reserved(self) -> nat {
        self.reserved_bytes as nat
    }

    /// The cache stays within its limits, reserves no bank twice, and knows its memory.
    pub open spec fn wf(self) -> bool {
        &&& self.entries().len() <= self.entry_limit()
        &&& self.reserved() == total_bytes(self.entries())
        &&& self.reserved() <= self.byte_limit()
        &&& forall|i: int|
            0 <= i < self.entries().len() ==> (#[trigger] self.entries()[i]).bytes == bank_bytes(
                self.entries()[i].key,
            )
        &&& forall|i: int, j: int|
            0 <= i < j < self.entries().len() ==> #[trigger] self.entries()[i].key
                != #[trigger] self.entries()[j].key
    }

    /// An empty cache.
    pub fn new(byte_limit: usize, entry_limit: usize) -> (cache: Self)
        ensures
            cache.wf(),
            cache.entries() == Seq::<BankEntry<S>>::empty(),
            cache.byte_limit() == byte_limit,
            cache.entry_limit() == entry_limit,
    {
        BankCache { entries: VecDeque::new(), reserved_bytes: 0, byte_limit, entry_limit }
    }

    /// Reserved banks.
    pub fn len(&self) -> (banks: usize)
        ensures
            banks == self.entries().len(),
    {
        self.entries.len()
    }

    /// Memory reserved for all banks.
    pub fn reserved_bytes(&self) -> (bytes: usize)
        ensures
            bytes == self.reserved(),
    {
        self.reserved_bytes
    }

    /// Place of a bank.
    fn position(&self, key: BankKey) -> (index: Option<usize>)
        ensures
            index is Some <==> reserves(self.entries(), key),
            index matches Some(i) ==> i < self.entries().len() && self.entries()[i as int].key
                == key,
    {
        let mut index: usize = 0;
        while index < self.entries.len()
            invariant
                index <= self.entries@.len(),
                forall|i: int| 0 <= i < index ==> (#[trigger] self.entries@[i]).key != key,
            decreases self.entries@.len() - index,
        {
            if self.entries[index].key == key {
                assert(self.entries@[index as int].key == key);
                return Some(index);
            }
            index += 1;
        }
        None
    }

    /// Whether a bank is reserved.
    pub fn contains(&self, key: BankKey) -> (reserved: bool)
        ensures
            reserved == reserves(self.entries(), key),
    {
        self.position(key).is_some()
    }

    /// The slot of a bank: the reserved one, which becomes the most recently used, or else
    /// a slot made of `fresh`.
    ///
    /// A new bank is reserved if the limits allow for it at all. As many of the least
    /// recently used banks as necessary, and no more, give way to it. Whatever holds of each
    /// slot and its key holds of the returned slot too, whether it was reserved before or not.
    pub fn reserve(&mut self, key: BankKey, fresh: S) -> (bank: Arc<S>)
        requires
            old(self).wf(),
        ensures
            final(self).wf(),
            final(self).byte_limit() == old(self).byte_limit(),
            final(self).entry_limit() == old(self).entry_limit(),
            forall|i: int|
                0 <= i < old(self).entries().len() && (#[trigger] old(self).entries()[i]).key == key
                    ==> bank == old(self).entries()[i].bank && final(self).entries() == old(
                    self,
                ).entries().remove(i).push(old(self).entries()[i]),
            !reserves(old(self).entries(), key) ==> bank == fresh,
            forall|fits: spec_fn(BankKey, S) -> bool| #[trigger]
                all_fit(old(self).entries(), fits) && fits(key, fresh) ==> all_fit(
                    final(self).entries(),
                    fits,
                ) && fits(key, *bank),
            reserves(old(self).entries(), key) || (cachable(key, old(self).byte_limit()) && old(
                self,
            ).entry_limit() > 0) ==> final(self).entries().len() > 0
                && final(self).entries().last().key == key
                && final(self).entries().last().bank == bank,
            !reserves(old(self).entries(), key) && !(cachable(key, old(self).byte_limit()) && old(
                self,
            ).entry_limit() > 0) ==> final(self).entries() == old(self).entries(),
            !reserves(old(self).entries(), key) && cachable(key, old(self).byte_limit()) && old(
                self,
            ).entry_limit() > 0 ==> exists|dropped: int|
                {
                    &&& 0 <= dropped <= old(self).entries().len()
                    &&& #[trigger] has_room(
                        old(self).entries(),
                        dropped,
                        bank_bytes(key),
                        old(self).byte_limit(),
                        old(self).entry_limit(),
                    )
                    &&& forall|fewer: int|
                        0 <= fewer < dropped ==> !#[trigger] has_room(
                            old(self).entries(),
                            fewer,
                            bank_bytes(key),
                            old(self).byte_limit(),
                            old(self).entry_limit(),
                        )
                    &&& final(self).entries() == old(self).entries().skip(dropped).push(
                        BankEntry { key, bytes: bank_bytes(key) as usize, bank },
                    )
                },
    {
        let ghost before = self.entries@;
        match self.position(key) {
            Some(index) => {
                match self.entries.remove(index) {
                    Some(entry) => {
                        let bank: Arc<S> = share(&entry.bank);
                        proof {
                            lemma_total_without(before, index as int);
                        }
                        self.entries.push_back(entry);
                        proof {
                            let moved = before.remove(index as int).push(before[index as int]);
                            assert(moved.drop_last() =~= before.remove(index as int));
                            assert forall|i: int|
                                0 <= i < before.len() && (#[trigger] before[i]).key == key implies i
                                == index by {}
                        }
                        return bank;
                    },
                    None => {
                        return Arc::new(fresh);
                    },
                }
            },
            None => {},
        }
        let bank: Arc<S> = Arc::new(fresh);
        let bytes: usize = match bytes_of(key) {
            Some(bytes) => bytes,
            None => {
                return bank;
            },
        };
        if bytes > self.byte_limit || self.entry_limit == 0 {
            return bank;
        }
        let ghost mut dropped: int = 0;
        assert(before.skip(0) =~= before);
        while self.entries.len() >= self.entry_limit || self.reserved_bytes > self.byte_limit
            - bytes
            invariant
                0 <= dropped <= before.len(),
                old(self).wf(),
                before == old(self).entries@,
                self.entries@ == before.skip(dropped),
                self.reserved_bytes == total_bytes(self.entries@) <= self.byte_limit,
                self.byte_limit == old(self).byte_limit,
                self.entry_limit == old(self).entry_limit,
                self.entry_limit > 0,
                bytes == bank_bytes(key) <= self.byte_limit,
                forall|fewer: int|
                    0 <= fewer < dropped ==> !#[trigger] has_room(
                        before,
                        fewer,
                        bytes as nat,
                        old(self).byte_limit(),
                        old(self).entry_limit(),
                    ),
            decreases self.entries@.len(),
        {
            assert(!has_room(
                before,
                dropped,
                bytes as nat,
                old(self).byte_limit(),
                old(self).entry_limit(),
            ));
            let ghost oldest = self.entries@;
            proof {
                if oldest.len() > 0 {
                    lemma_total_without(oldest, 0);
                    assert(oldest.remove(0) =~= oldest.subrange(1, oldest.len() as int));
                }
            }
            match self.entries.pop_front() {
                Some(entry) => {
                    self.reserved_bytes = self.reserved_bytes - entry.bytes;
                    proof {
                        dropped = dropped + 1;
                        assert(oldest.subrange(1, oldest.len() as int) =~= before.skip(dropped));
                    }
                },
                None => {},
            }
        }
        assert(has_room(
            before,
            dropped,
            bytes as nat,
            old(self).byte_limit(),
            old(self).entry_limit(),
        ));
        self.reserved_bytes = self.reserved_bytes + bytes;
        self.entries.push_back(BankEntry { key, bytes, bank: share(&bank) });
        proof {
            assert(self.entries@.drop_last() =~= before.skip(dropped));
            assert forall|i: int, j: int| 0 <= i < j < self.entries@.len() implies #[trigger]
                self.entries@[i].key != #[trigger] self.entries@[j].key by {
                assert(self.entries@[i] == before[dropped + i]);
            }
        }
        bank
    }
}

/// Another pointer to a shared value.
pub(crate) fn share<S>(bank: &Arc<S>) -> (shared: Arc<S>)
    ensures
        shared == *bank,
{
    Arc::clone(bank)
}

/// Memory of the coefficients of a bank, if it can be counted.
fn bytes_of(key: BankKey) -> (bytes: Option<usize>)
    ensures
        bytes is Some <==> cachable(key, usize::MAX as nat),
        bytes matches Some(count) ==> count == bank_bytes(key),
{
    let ghost rows = key.phases + 1;
    let ghost values = rows * key.taps;
    proof {
        assert(0 <= values) by (nonlinear_arith)
            requires
                values == rows * key.taps,
                rows >= 1,
        ;
    }
    match key.phases.checked_add(1) {
        Some(counted_rows) => match counted_rows.checked_mul(key.taps) {
            Some(counted_values) => counted_values.checked_mul(COEFFICIENT_BYTES),
            None => None,
        },
        None => None,
    }
}

/// Memory without one of the banks.
proof fn lemma_total_without<S>(entries: Seq<BankEntry<S>>, index: int)
    requires
        0 <= index < entries.len(),
    ensures
        total_bytes(entries) == total_bytes(entries.remove(index)) + entries[index].bytes as nat,
    decreases entries.len(),
{
    if index == entries.len() - 1 {
        assert(entries.remove(index) =~= entries.drop_last());
    } else {
        lemma_total_without(entries.drop_last(), index);
        assert(entries.remove(index).drop_last() =~= entries.drop_last().remove(index));
        assert(entries.remove(index).last() == entries.last());
    }
}

} // verus!
