//! Layout of the coefficient bank.
//!
//! Each phase row is a windowed sinc sampled at the phase's fractional positions and
//! normalized to sum to one. Opposite phases mirror each other, so only half of the rows
//! are computed, and the interpolation row is the first one delayed by a tap. The values
//! themselves come from a [`Kernel`]; where each one is evaluated, how rows are summed and
//! where results go is decided here.

use vstd::arithmetic::div_mod::{lemma_fundamental_div_mod, lemma_fundamental_div_mod_converse};
use vstd::prelude::*;

use crate::arithmetic::ZERO_BITS;
use crate::design::{Design, MAX_COEFFICIENT_VALUES, MAX_EXACT_PHASES, MAX_TAPS};

verus! {

/// Where a tap of a phase row is evaluated.
#[derive(Clone, Copy, Debug, PartialEq, Eq, Structural)]
pub struct TapPoint {
    /// Distance from the center of the filter, in fractions of a tap over the phases.
    pub numerator: i64,
    /// The sine's argument in half turns is `remainder / denominator`, after whole half
    /// turns are taken off.
    pub remainder: i64,
    /// Denominator of the sine's argument.
    pub denominator: i64,
    /// An odd number of half turns was taken off: the sine changes sign.
    pub negated: bool,
}

/// Extended-precision arithmetic of coefficients, over values of type `V`.
///
/// Nothing is assumed of an implementation. Contracts speak of every [`KernelModel`]
/// that an implementation follows.
pub trait Kernel<V: Copy> {
    /// The value zero.
    fn zero(&self) -> V;

    /// The windowed sinc at a point within the filter's support.
    fn windowed_sinc(&self, point: TapPoint) -> V;

    /// The sum of two values.
    fn sum(&self, a: V, b: V) -> V;

    /// One over a value.
    fn reciprocal(&self, value: V) -> V;

    /// The bits of the product of two values, rounded once.
    fn rounded_product(&self, a: V, b: V) -> u64;
}

/// The operations of a [`Kernel`] as mathematical functions.
#[verifier::reject_recursive_types(V)]
pub struct KernelModel<V> {
    pub zero: V,
    pub windowed_sinc: spec_fn(TapPoint) -> V,
    pub sum: spec_fn(V, V) -> V,
    pub reciprocal: spec_fn(V) -> V,
    pub rounded_product: spec_fn(V, V) -> u64,
}

/// Every result that `kernel` can return is the one that `model` gives.
pub open spec fn kernel_follows<V: Copy, K: Kernel<V>>(kernel: &K, model: KernelModel<V>) -> bool {
    &&& forall|r: V| #[trigger] call_ensures(K::zero, (kernel,), r) ==> r == model.zero
    &&& forall|p: TapPoint, r: V| #[trigger]
        call_ensures(K::windowed_sinc, (kernel, p), r) ==> r == (model.windowed_sinc)(p)
    &&& forall|a: V, b: V, r: V| #[trigger]
        call_ensures(K::sum, (kernel, a, b), r) ==> r == (model.sum)(a, b)
    &&& forall|a: V, r: V| #[trigger]
        call_ensures(K::reciprocal, (kernel, a), r) ==> r == (model.reciprocal)(a)
    &&& forall|a: V, b: V, r: u64| #[trigger]
        call_ensures(K::rounded_product, (kernel, a, b), r) ==> r == (model.rounded_product)(a, b)
}

/// The rates and the shape of a bank.
pub struct BankShape {
    pub from_rate: int,
    pub lower_rate: int,
    pub phases: int,
    pub taps: int,
}

impl BankShape {
    /// Taps on each side of the center.
    pub open spec fn half(self) -> int {
        self.taps / 2
    }

    /// Distance of a tap from the center of the filter, over the phases.
    pub open spec fn numerator(self, phase: int, tap: int) -> int {
        (tap - self.half()) * self.phases - phase
    }

    /// A tap lies strictly within the filter's support.
    pub open spec fn supported(self, phase: int, tap: int) -> bool {
        -(self.half() * self.phases) < self.numerator(phase, tap) < self.half() * self.phases
    }

    /// Where a tap is evaluated. The sine's argument is reduced before it is rounded.
    pub open spec fn point(self, phase: int, tap: int) -> TapPoint {
        let turns = self.numerator(phase, tap) * self.lower_rate;
        let denominator = self.from_rate * self.phases;
        TapPoint {
            numerator: self.numerator(phase, tap) as i64,
            remainder: (turns % denominator) as i64,
            denominator: denominator as i64,
            negated: (turns / denominator) % 2 == 1,
        }
    }
}

/// The shape of the bank of a rate pair and design.
pub open spec fn shape_of(from_rate: u32, to_rate: u32, design: Design) -> BankShape {
    BankShape {
        from_rate: from_rate as int,
        lower_rate: if from_rate < to_rate {
            from_rate as int
        } else {
            to_rate as int
        },
        phases: design.phases as int,
        taps: design.taps as int,
    }
}

/// The value of a tap before its row is normalized.
pub open spec fn tap_value<V>(model: KernelModel<V>, shape: BankShape, phase: int, tap: int) -> V {
    if shape.supported(phase, tap) {
        (model.windowed_sinc)(shape.point(phase, tap))
    } else {
        model.zero
    }
}

/// The sum of the first taps of a row, in ascending order.
pub open spec fn row_sum<V>(model: KernelModel<V>, shape: BankShape, phase: int, taps: nat) -> V
    decreases taps,
{
    if taps == 0 {
        model.zero
    } else {
        (model.sum)(
            row_sum(model, shape, phase, (taps - 1) as nat),
            tap_value(model, shape, phase, taps - 1),
        )
    }
}

/// A tap of a computed row: its value over the sum of the row, rounded once.
pub open spec fn computed<V>(model: KernelModel<V>, shape: BankShape, phase: int, tap: int) -> u64 {
    (model.rounded_product)(
        tap_value(model, shape, phase, tap),
        (model.reciprocal)(row_sum(model, shape, phase, shape.taps as nat)),
    )
}

/// The coefficient of a tap in a phase row or in the interpolation row.
///
/// Rows up to the middle are computed. Those past it mirror the opposite row, and the
/// interpolation row is the first row one tap later. What has no counterpart is zero.
pub open spec fn coefficient<V>(
    model: KernelModel<V>,
    shape: BankShape,
    phase: int,
    tap: int,
) -> u64 {
    if phase <= shape.phases / 2 {
        computed(model, shape, phase, tap)
    } else if tap == 0 {
        ZERO_BITS
    } else if phase < shape.phases {
        computed(model, shape, shape.phases - phase, shape.taps - tap)
    } else {
        computed(model, shape, 0, tap - 1)
    }
}

/// All coefficients, phase after phase.
pub open spec fn bank_of<V>(model: KernelModel<V>, shape: BankShape) -> Seq<u64> {
    Seq::new(
        ((shape.phases + 1) * shape.taps) as nat,
        |i: int| coefficient(model, shape, i / shape.taps, i % shape.taps),
    )
}

/// Opposite phases are reflected copies, but for the edge tap that falls outside.
pub proof fn law_opposite_phases_mirror_each_other<V>(
    model: KernelModel<V>,
    shape: BankShape,
    phase: int,
    tap: int,
)
    requires
        0 < phase < shape.phases,
        2 * phase != shape.phases,
        0 < tap < shape.taps,
    ensures
        coefficient(model, shape, shape.phases - phase, tap) == coefficient(
            model,
            shape,
            phase,
            shape.taps - tap,
        ),
{
}

/// The interpolation row is the first row delayed by exactly one tap.
pub proof fn law_interpolation_row_is_the_first_row_delayed<V>(
    model: KernelModel<V>,
    shape: BankShape,
    tap: int,
)
    requires
        0 < shape.phases,
        0 < tap < shape.taps,
    ensures
        coefficient(model, shape, shape.phases, tap) == coefficient(model, shape, 0, tap - 1),
        coefficient(model, shape, shape.phases, 0) == ZERO_BITS,
{
}

/// The edge tap of every phase lies outside the filter's support.
pub proof fn law_edge_taps_are_unsupported(shape: BankShape, phase: int)
    requires
        0 <= phase < shape.phases,
        0 <= shape.taps,
    ensures
        !shape.supported(phase, 0),
{
    assert((0 - shape.half()) * shape.phases == -(shape.half() * shape.phases))
        by (nonlinear_arith);
}

/// Where a tap is evaluated, for distances within the filter's support.
fn tap_point(numerator: i64, lower_rate: u32, denominator: u64, Ghost(shape): Ghost<BankShape>, Ghost(
    phase,
): Ghost<int>, Ghost(tap): Ghost<int>) -> (point: TapPoint)
    requires
        -67_108_864 < numerator < 67_108_864,
        numerator == shape.numerator(phase, tap),
        lower_rate == shape.lower_rate,
        0 < denominator == shape.from_rate * shape.phases,
        denominator <= 0xffff_ffff * 2048,
    ensures
        point == shape.point(phase, tap),
{
    let ghost turns = numerator * lower_rate;
    let ghost d = denominator as int;
    let distance: u64 = if numerator < 0 {
        (-numerator) as u64
    } else {
        numerator as u64
    };
    assert(distance * lower_rate <= 67_108_864 * 0xffff_ffff) by (nonlinear_arith)
        requires
            0 <= distance <= 67_108_864,
            0 <= lower_rate <= 0xffff_ffff,
    ;
    let arc: u64 = distance * lower_rate as u64;
    let whole: u64 = arc / denominator;
    let rest: u64 = arc % denominator;
    proof {
        lemma_fundamental_div_mod(arc as int, d);
    }
    if numerator >= 0 {
        TapPoint {
            numerator,
            remainder: rest as i64,
            denominator: denominator as i64,
            negated: whole % 2 == 1,
        }
    } else if rest == 0 {
        proof {
            assert(turns == -arc) by (nonlinear_arith)
                requires
                    turns == numerator * lower_rate,
                    arc == distance * lower_rate,
                    distance == -numerator,
            ;
            assert(turns == (-whole) * d + 0) by (nonlinear_arith)
                requires
                    turns == -arc,
                    arc == d * whole,
            ;
            lemma_fundamental_div_mod_converse(turns, d, -whole, 0);
        }
        TapPoint {
            numerator,
            remainder: 0,
            denominator: denominator as i64,
            negated: whole % 2 == 1,
        }
    } else {
        proof {
            assert(turns == -arc) by (nonlinear_arith)
                requires
                    turns == numerator * lower_rate,
                    arc == distance * lower_rate,
                    distance == -numerator,
            ;
            assert(turns == (-whole - 1) * d + (d - rest)) by (nonlinear_arith)
                requires
                    turns == -arc,
                    arc == d * whole + rest,
            ;
            lemma_fundamental_div_mod_converse(turns, d, -whole - 1, d - rest);
        }
        TapPoint {
            numerator,
            remainder: (denominator - rest) as i64,
            denominator: denominator as i64,
            negated: whole % 2 == 0,
        }
    }
}

/// One row of the filter, normalized.
pub fn computed_row<V: Copy, K: Kernel<V>>(
    kernel: &K,
    from_rate: u32,
    to_rate: u32,
    design: Design,
    phase: usize,
) -> (row: Vec<u64>)
    requires
        from_rate > 0,
        0 < design.phases <= MAX_EXACT_PHASES,
        0 < design.taps <= MAX_TAPS,
        phase < design.phases,
    ensures
        row@.len() == design.taps,
        forall|model: KernelModel<V>, tap: int|
            #![trigger kernel_follows(kernel, model), row@[tap]]
            kernel_follows(kernel, model) && 0 <= tap < design.taps ==> row@[tap] == computed(
                model,
                shape_of(from_rate, to_rate, design),
                phase as int,
                tap,
            ),
{
    let ghost shape = shape_of(from_rate, to_rate, design);
    let half: i64 = (design.taps / 2) as i64;
    let phases: i64 = design.phases as i64;
    let lower_rate: u32 = if from_rate < to_rate {
        from_rate
    } else {
        to_rate
    };
    assert(0 < from_rate * phases <= 0xffff_ffff * 2048) by (nonlinear_arith)
        requires
            0 < from_rate <= 0xffff_ffff,
            0 < phases <= 2048,
    ;
    let denominator: u64 = from_rate as u64 * design.phases as u64;
    assert(0 <= half * phases <= 32_767 * 2048) by (nonlinear_arith)
        requires
            0 <= half <= 32_767,
            0 < phases <= 2048,
    ;
    let support: i64 = half * phases;
    let mut values: Vec<V> = Vec::new();
    let mut sum: V = kernel.zero();
    let mut tap: usize = 0;
    while tap < design.taps
        invariant
            0 < design.phases <= MAX_EXACT_PHASES,
            0 < design.taps <= MAX_TAPS,
            phase < design.phases,
            tap <= design.taps,
            shape == shape_of(from_rate, to_rate, design),
            half == shape.half(),
            phases == shape.phases,
            lower_rate == shape.lower_rate,
            0 < denominator == shape.from_rate * shape.phases,
            denominator <= 0xffff_ffff * 2048,
            support == half * phases,
            0 <= support <= 32_767 * 2048,
            values@.len() == tap,
            forall|model: KernelModel<V>, k: int|
                #![trigger kernel_follows(kernel, model), values@[k]]
                kernel_follows(kernel, model) && 0 <= k < tap ==> values@[k] == tap_value(
                    model,
                    shape,
                    phase as int,
                    k,
                ),
            forall|model: KernelModel<V>| #[trigger]
                kernel_follows(kernel, model) ==> sum == row_sum(
                    model,
                    shape,
                    phase as int,
                    tap as nat,
                ),
        decreases design.taps - tap,
    {
        assert(-(32_767 * 2048) <= (tap - half) * phases <= 65_535 * 2048) by (nonlinear_arith)
            requires
                0 <= tap <= 65_535,
                0 <= half <= 32_767,
                0 < phases <= 2048,
        ;
        let numerator: i64 = (tap as i64 - half) * phases - phase as i64;
        let value: V = if numerator <= -support || numerator >= support {
            kernel.zero()
        } else {
            kernel.windowed_sinc(
                tap_point(
                    numerator,
                    lower_rate,
                    denominator,
                    Ghost(shape),
                    Ghost(phase as int),
                    Ghost(tap as int),
                ),
            )
        };
        values.push(value);
        sum = kernel.sum(sum, value);
        tap += 1;
    }
    let normalization: V = kernel.reciprocal(sum);
    let mut row: Vec<u64> = Vec::new();
    let mut tap: usize = 0;
    while tap < design.taps
        invariant
            tap <= design.taps,
            shape.taps == design.taps,
            values@.len() == design.taps,
            row@.len() == tap,
            forall|model: KernelModel<V>, k: int|
                #![trigger kernel_follows(kernel, model), values@[k]]
                kernel_follows(kernel, model) && 0 <= k < design.taps ==> values@[k] == tap_value(
                    model,
                    shape,
                    phase as int,
                    k,
                ),
            forall|model: KernelModel<V>| #[trigger]
                kernel_follows(kernel, model) ==> normalization == (model.reciprocal)(
                    row_sum(model, shape, phase as int, shape.taps as nat),
                ),
            forall|model: KernelModel<V>, k: int|
                #![trigger kernel_follows(kernel, model), row@[k]]
                kernel_follows(kernel, model) && 0 <= k < tap ==> row@[k] == computed(
                    model,
                    shape,
                    phase as int,
                    k,
                ),
        decreases design.taps - tap,
    {
        row.push(kernel.rounded_product(values[tap], normalization));
        tap += 1;
    }
    row
}

/// A bank can be computed for a rate pair and design.
pub open spec fn computable(from_rate: u32, to_rate: u32, design: Design) -> bool {
    &&& from_rate > 0
    &&& to_rate > 0
    &&& 0 < design.phases <= MAX_EXACT_PHASES
    &&& 0 < design.taps <= MAX_TAPS
    &&& (design.phases + 1) * design.taps <= MAX_COEFFICIENT_VALUES
}

/// All coefficients of a rate pair and design, phase after phase, with the interpolation
/// row at the end.
pub fn coefficients<V: Copy, K: Kernel<V>>(
    kernel: &K,
    from_rate: u32,
    to_rate: u32,
    design: Design,
) -> (bank: Vec<u64>)
    requires
        computable(from_rate, to_rate, design),
    ensures
        bank@.len() == (design.phases + 1) * design.taps,
        forall|model: KernelModel<V>| #[trigger]
            kernel_follows(kernel, model) ==> bank@ == bank_of(
                model,
                shape_of(from_rate, to_rate, design),
            ),
{
    let ghost shape = shape_of(from_rate, to_rate, design);
    let taps: usize = design.taps;
    let phases: usize = design.phases;
    let mut bank: Vec<u64> = Vec::new();
    let mut phase: usize = 0;
    assert(0 * taps == 0) by (nonlinear_arith);
    while phase <= phases
        invariant
            from_rate > 0,
            0 < phases == design.phases <= MAX_EXACT_PHASES,
            0 < taps == design.taps <= MAX_TAPS,
            (phases + 1) * taps <= MAX_COEFFICIENT_VALUES,
            shape == shape_of(from_rate, to_rate, design),
            phase <= phases + 1,
            bank@.len() == phase * taps,
            forall|model: KernelModel<V>, i: int|
                #![trigger kernel_follows(kernel, model), bank@[i]]
                kernel_follows(kernel, model) && 0 <= i < bank@.len() ==> bank@[i] == coefficient(
                    model,
                    shape,
                    i / (taps as int),
                    i % (taps as int),
                ),
        decreases phases + 1 - phase,
    {
        let ghost before = bank@;
        let mut row: Vec<u64> = if phase <= phases / 2 {
            computed_row(kernel, from_rate, to_rate, design, phase)
        } else {
            copied_row(kernel, &bank, Ghost(shape), phase, phases, taps)
        };
        let ghost appended = row@;
        bank.append(&mut row);
        proof {
            assert((phase + 1) * taps == phase * taps + taps) by (nonlinear_arith);
            assert forall|model: KernelModel<V>, i: int|
                #![trigger kernel_follows(kernel, model), bank@[i]]
                kernel_follows(kernel, model) && 0 <= i < bank@.len() implies bank@[i]
                == coefficient(model, shape, i / (taps as int), i % (taps as int)) by {
                if i < before.len() {
                    assert(bank@[i] == before[i]);
                } else {
                    let tap = i - before.len();
                    lemma_fundamental_div_mod_converse(i, taps as int, phase as int, tap);
                    assert(bank@[i] == appended[tap]);
                }
            }
        }
        phase += 1;
    }
    assert forall|model: KernelModel<V>| #[trigger] kernel_follows(kernel, model) implies bank@
        == bank_of(model, shape) by {
        assert(bank@ =~= bank_of(model, shape));
    }
    bank
}

/// A row past the middle, copied from an earlier one.
fn copied_row<V: Copy, K: Kernel<V>>(
    kernel: &K,
    bank: &Vec<u64>,
    Ghost(shape): Ghost<BankShape>,
    phase: usize,
    phases: usize,
    taps: usize,
) -> (row: Vec<u64>)
    requires
        0 < phases == shape.phases,
        0 < taps == shape.taps,
        phases / 2 < phase <= phases,
        bank@.len() == phase * taps,
        (phases + 1) * taps <= MAX_COEFFICIENT_VALUES,
        forall|model: KernelModel<V>, i: int|
            #![trigger kernel_follows(kernel, model), bank@[i]]
            kernel_follows(kernel, model) && 0 <= i < bank@.len() ==> bank@[i] == coefficient(
                model,
                shape,
                i / (taps as int),
                i % (taps as int),
            ),
    ensures
        row@.len() == taps,
        forall|model: KernelModel<V>, tap: int|
            #![trigger kernel_follows(kernel, model), row@[tap]]
            kernel_follows(kernel, model) && 0 <= tap < taps ==> row@[tap] == coefficient(
                model,
                shape,
                phase as int,
                tap,
            ),
{
    let mut row: Vec<u64> = vec![ZERO_BITS];
    let mut tap: usize = 1;
    while tap < taps
        invariant
            0 < phases == shape.phases,
            0 < taps == shape.taps,
            phases / 2 < phase <= phases,
            1 <= tap <= taps,
            bank@.len() == phase * taps,
            (phases + 1) * taps <= MAX_COEFFICIENT_VALUES,
            row@.len() == tap,
            forall|model: KernelModel<V>, i: int|
                #![trigger kernel_follows(kernel, model), bank@[i]]
                kernel_follows(kernel, model) && 0 <= i < bank@.len() ==> bank@[i] == coefficient(
                    model,
                    shape,
                    i / (taps as int),
                    i % (taps as int),
                ),
            forall|model: KernelModel<V>, k: int|
                #![trigger kernel_follows(kernel, model), row@[k]]
                kernel_follows(kernel, model) && 0 <= k < tap ==> row@[k] == coefficient(
                    model,
                    shape,
                    phase as int,
                    k,
                ),
        decreases taps - tap,
    {
        let opposite: usize = phases - phase;
        let source: usize = if phase < phases {
            taps - tap
        } else {
            tap - 1
        };
        proof {
            assert(0 <= opposite * taps && opposite * taps + taps <= phase * taps)
                by (nonlinear_arith)
                requires
                    0 <= opposite,
                    opposite + 1 <= phase,
                    0 < taps,
            ;
            assert(phase * taps <= (phases + 1) * taps) by (nonlinear_arith)
                requires
                    phase <= phases + 1,
                    0 < taps,
            ;
            lemma_fundamental_div_mod_converse(
                opposite * taps + source,
                taps as int,
                opposite as int,
                source as int,
            );
        }
        row.push(bank[opposite * taps + source]);
        tap += 1;
    }
    row
}

} // verus!
