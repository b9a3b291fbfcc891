//! Which tile of rational periods a stereo stream is batched in.

use vstd::prelude::*;

use crate::design::{gcd, gcd_of, lemma_gcd_positive, Design};

verus! {

/// Longest input that batching may hold back, in milliseconds.
pub const MAX_BATCH_MILLISECONDS: u64 = 64;

/// Largest packed tile, in bytes.
pub const MAX_BATCH_SCRATCH_BYTES: u64 = 16_777_216;

/// Vector instructions found on the running processor.
#[derive(Clone, Copy, Debug, PartialEq, Eq, Structural)]
pub struct CpuFeatures {
    /// 512-bit vectors.
    pub avx512f: bool,
    /// 256-bit vectors.
    pub avx: bool,
    /// 128-bit vectors of the AArch64 family.
    pub neon: bool,
}

/// Layout of the tiles that a stereo stream with exact phases is processed in.
#[derive(Clone, Copy, Debug, PartialEq, Eq, Structural)]
pub enum PhaseBatchBackend {
    /// No tiles: every available frame is emitted at once.
    Disabled,
    /// Tiles for 512-bit vectors.
    Avx512,
    /// Tiles for 256-bit vectors.
    Avx,
    /// Tiles for paired 128-bit vectors.
    Neon,
}

/// Rational periods in one tile.
pub open spec fn periods_of(backend: PhaseBatchBackend) -> nat {
    match backend {
        PhaseBatchBackend::Disabled => 0,
        PhaseBatchBackend::Avx512 => 16,
        PhaseBatchBackend::Avx => 8,
        PhaseBatchBackend::Neon => 8,
    }
}

/// The widest tile that the processor supports.
pub open spec fn preferred_backend(features: CpuFeatures) -> PhaseBatchBackend {
    if features.avx512f {
        PhaseBatchBackend::Avx512
    } else if features.avx {
        PhaseBatchBackend::Avx
    } else if features.neon {
        PhaseBatchBackend::Neon
    } else {
        PhaseBatchBackend::Disabled
    }
}

/// A tile stays within the geometry, latency and memory limits: its phases fill a group
/// of accumulators, the input it covers lasts at most [`MAX_BATCH_MILLISECONDS`], and its
/// packed rows take at most [`MAX_BATCH_SCRATCH_BYTES`].
pub open spec fn fits(from: nat, to: nat, design: Design, backend: PhaseBatchBackend) -> bool {
    let periods = periods_of(backend);
    let num = from / gcd_of(from, to);
    &&& design.phases >= periods / 4
    &&& num * periods * 1000 <= from * MAX_BATCH_MILLISECONDS
    &&& (design.taps + num) * periods * 16 + 64 <= MAX_BATCH_SCRATCH_BYTES
}

/// The tile for a rate pair: the preferred one where it fits, else the narrower one where
/// the processor has it and it fits. None without at least two exact phases.
pub open spec fn backend_for_rates(
    from: nat,
    to: nat,
    design: Design,
    features: CpuFeatures,
) -> PhaseBatchBackend {
    let preferred = preferred_backend(features);
    if design.phases < 2 || design.phases != to / gcd_of(from, to) {
        PhaseBatchBackend::Disabled
    } else if fits(from, to, design, preferred) {
        preferred
    } else if preferred == PhaseBatchBackend::Avx512 && features.avx && fits(
        from,
        to,
        design,
        PhaseBatchBackend::Avx,
    ) {
        PhaseBatchBackend::Avx
    } else {
        PhaseBatchBackend::Disabled
    }
}

/// Tiles need at least two exact phases, and stay within the latency and memory limits:
/// their input lasts at most 64 ms and their packed rows take at most 16 MiB.
pub proof fn law_tiles_stay_within_limits(
    from: nat,
    to: nat,
    design: Design,
    features: CpuFeatures,
)
    ensures
        ({
            let backend = backend_for_rates(from, to, design, features);
            let num = from / gcd_of(from, to);
            periods_of(backend) > 0 ==> {
                &&& design.phases >= 2
                &&& design.phases == to / gcd_of(from, to)
                &&& num * periods_of(backend) * 1000 <= from * MAX_BATCH_MILLISECONDS
                &&& (design.taps + num) * periods_of(backend) * 16 + 64 <= MAX_BATCH_SCRATCH_BYTES
            }
        }),
{
}

/// Tiles are only used on processors with their instructions.
pub proof fn law_tiles_need_their_instructions(
    from: nat,
    to: nat,
    design: Design,
    features: CpuFeatures,
)
    ensures
        ({
            let backend = backend_for_rates(from, to, design, features);
            &&& backend == PhaseBatchBackend::Avx512 ==> features.avx512f
            &&& backend == PhaseBatchBackend::Avx ==> features.avx
            &&& backend == PhaseBatchBackend::Neon ==> features.neon
        }),
{
}

impl PhaseBatchBackend {
    /// Rational periods in one tile.
    pub fn periods(self) -> (periods: usize)
        ensures
            periods == periods_of(self),
    {
        match self {
            PhaseBatchBackend::Disabled => 0,
            PhaseBatchBackend::Avx512 => 16,
            PhaseBatchBackend::Avx => 8,
            PhaseBatchBackend::Neon => 8,
        }
    }
}

/// The widest tile that the processor supports.
pub fn select_phase_batch_backend(features: CpuFeatures) -> (backend: PhaseBatchBackend)
    ensures
        backend == preferred_backend(features),
{
    if features.avx512f {
        return PhaseBatchBackend::Avx512;
    }
    if features.avx {
        return PhaseBatchBackend::Avx;
    }
    if features.neon {
        return PhaseBatchBackend::Neon;
    }
    PhaseBatchBackend::Disabled
}

/// Whether a tile stays within the limits, for a positive reduced input rate.
fn backend_fits(
    from_rate: u32,
    Ghost(to_rate): Ghost<u32>,
    num: u32,
    design: Design,
    backend: PhaseBatchBackend,
) -> (accepted: bool)
    requires
        num == from_rate as nat / gcd_of(from_rate as nat, to_rate as nat),
    ensures
        accepted == fits(from_rate as nat, to_rate as nat, design, backend),
{
    let periods: u128 = backend.periods() as u128;
    let wide_num: u128 = num as u128;
    let taps: u128 = design.taps as u128;
    assert(wide_num * periods <= 0xffff_ffff * 16) by (nonlinear_arith)
        requires
            0 <= wide_num <= 0xffff_ffff,
            0 <= periods <= 16,
    ;
    assert((taps + wide_num) * periods <= 0x20_0000_0000_0000_0000) by (nonlinear_arith)
        requires
            0 <= taps <= 0xffff_ffff_ffff_ffff,
            0 <= wide_num <= 0xffff_ffff,
            0 <= periods <= 16,
    ;
    design.phases as u128 >= periods / 4 && wide_num * periods * 1000 <= from_rate as u128
        * MAX_BATCH_MILLISECONDS as u128 && (taps + wide_num) * periods * 16 + 64
        <= MAX_BATCH_SCRATCH_BYTES as u128
}

/// The tile for a rate pair under the common geometry, latency and memory limits.
pub fn phase_batch_backend_for_rates(
    from_rate: u32,
    to_rate: u32,
    design: Design,
    features: CpuFeatures,
) -> (backend: PhaseBatchBackend)
    requires
        from_rate > 0,
        to_rate > 0,
    ensures
        backend == backend_for_rates(from_rate as nat, to_rate as nat, design, features),
{
    let divisor: u32 = gcd(from_rate, to_rate);
    proof {
        lemma_gcd_positive(from_rate as nat, to_rate as nat);
    }
    if design.phases < 2 || design.phases as u128 != (to_rate / divisor) as u128 {
        return PhaseBatchBackend::Disabled;
    }
    let num: u32 = from_rate / divisor;
    let backend: PhaseBatchBackend = select_phase_batch_backend(features);
    if backend_fits(from_rate, Ghost(to_rate), num, design, backend) {
        return backend;
    }
    if backend == PhaseBatchBackend::Avx512 && features.avx && backend_fits(
        from_rate,
        Ghost(to_rate),
        num,
        design,
        PhaseBatchBackend::Avx,
    ) {
        return PhaseBatchBackend::Avx;
    }
    PhaseBatchBackend::Disabled
}

} // verus!
