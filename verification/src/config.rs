//! Configuration values and errors shared by the whole crate.

use vstd::prelude::*;
use vstd::string::StringExecFns;

verus! {

/// Invalid configuration, incomplete interleaved frames, or stream misuse.
#[derive(Clone, Copy, Debug, PartialEq, Eq, Structural)]
pub enum Error {
    /// Both rates must be greater than zero.
    ZeroSampleRate,
    /// A stream must have at least one channel.
    ZeroChannels,
    /// A custom length must be odd and between three and the rate-dependent limit.
    InvalidFilterLength {
        /// Requested number of taps per phase.
        requested: usize,
        /// Largest permitted odd tap count for this rate pair.
        maximum: usize,
    },
    /// A block must contain a whole number of interleaved frames.
    IncompleteFrame {
        /// Number of samples in the submitted block.
        samples: usize,
        /// Configured number of interleaved channels per frame.
        channels: usize,
    },
    /// Reset before submitting more input after the final block.
    StreamFinished,
    /// The requested frame or sample count exceeds representable storage or timing.
    SizeOverflow,
}

/// Filter support chosen at construction, in input samples per phase.
///
/// Presets adapt to the rate pair and respect the tap, coefficient-memory and
/// support-time limits. The window, cutoff and coefficient precision stay the same
/// for every length.
#[derive(Clone, Copy, Debug, PartialEq, Eq, Structural)]
pub enum FilterLength {
    /// The base length under the selected [`FilterLengthPolicy`].
    Standard,
    /// 175% of the standard length, rounded up to odd, subject to resource limits.
    Long,
    /// 200% of the standard length, rounded up to odd, subject to resource limits.
    ExtraLong,
    /// An exact odd tap count of at least three, within the rate-dependent limit.
    /// Invalid requests return [`Error::InvalidFilterLength`]; they are neither
    /// rounded nor clamped.
    Custom(usize),
}

/// Rule used to select the Standard length before applying a length preset.
#[derive(Clone, Copy, Debug, PartialEq, Eq, Structural)]
pub enum FilterLengthPolicy {
    /// Ratio-based support: `ceil(1664 * input / min(input, output))`, rounded up
    /// to odd and capped.
    Generic,
    /// Predefined rate-specific minimum lengths with a 512/ratio support floor.
    /// Minima apply to exact phase banks; interpolated banks use the floor alone.
    Fixed,
}

/// Filter storage and centered lookahead of a configured conversion.
#[derive(Clone, Copy, Debug, PartialEq, Eq, Structural)]
pub struct FilterInfo {
    /// Input sample rate in Hz.
    pub input_rate: u32,
    /// Output sample rate in Hz.
    pub output_rate: u32,
    /// Number of interleaved channels per frame.
    pub channels: usize,
    /// Number of fractional phases, excluding the final interpolation row.
    pub phases: usize,
    /// Number of filter coefficients in each phase row.
    pub taps_per_phase: usize,
    /// Future input frames needed by the centered filter, excluding batching.
    pub lookahead_input_frames: usize,
    /// Maximum additional input frames held for the selected phase batch.
    /// Zero on paths that emit every available output immediately.
    pub additional_batch_input_frames: usize,
    /// Coefficient storage only, excluding history and returned output buffers.
    pub coefficient_bytes: usize,
    /// Whether equal sample rates bypass filtering and coefficient allocation.
    pub bypass: bool,
    /// Compatibility field. This is always false.
    pub uses_precise_c1_bank: bool,
}

impl Default for FilterLength {
    fn default() -> (length: Self)
        ensures
            length == FilterLength::Standard,
    {
        FilterLength::Standard
    }
}

impl Default for FilterLengthPolicy {
    fn default() -> (policy: Self)
        ensures
            policy == FilterLengthPolicy::Generic,
    {
        FilterLengthPolicy::Generic
    }
}

/// The text of one decimal digit.
pub open spec fn digit_text(digit: nat) -> Seq<char> {
    if digit == 0 {
        "0"@
    } else if digit == 1 {
        "1"@
    } else if digit == 2 {
        "2"@
    } else if digit == 3 {
        "3"@
    } else if digit == 4 {
        "4"@
    } else if digit == 5 {
        "5"@
    } else if digit == 6 {
        "6"@
    } else if digit == 7 {
        "7"@
    } else if digit == 8 {
        "8"@
    } else {
        "9"@
    }
}

/// The decimal text of a natural number, without leading zeros.
pub open spec fn decimal_text(value: nat) -> Seq<char>
    decreases value,
{
    if value < 10 {
        digit_text(value)
    } else {
        decimal_text(value / 10) + digit_text(value % 10)
    }
}

fn digit(value: usize) -> (text: String)
    requires
        value < 10,
    ensures
        text@ == digit_text(value as nat),
{
    if value == 0 {
        "0".to_owned()
    } else if value == 1 {
        "1".to_owned()
    } else if value == 2 {
        "2".to_owned()
    } else if value == 3 {
        "3".to_owned()
    } else if value == 4 {
        "4".to_owned()
    } else if value == 5 {
        "5".to_owned()
    } else if value == 6 {
        "6".to_owned()
    } else if value == 7 {
        "7".to_owned()
    } else if value == 8 {
        "8".to_owned()
    } else {
        "9".to_owned()
    }
}

fn decimal(value: usize) -> (text: String)
    ensures
        text@ == decimal_text(value as nat),
    decreases value,
{
    if value < 10 {
        digit(value)
    } else {
        decimal(value / 10).concat(digit(value % 10).as_str())
    }
}

impl Error {
    /// The wording of [`Error::message`].
    pub open spec fn message_text(self) -> Seq<char> {
        match self {
            Error::ZeroSampleRate => "sample rates must be nonzero"@,
            Error::ZeroChannels => "channel count must be nonzero"@,
            Error::InvalidFilterLength { requested, maximum } =>
                "filter length must be odd and between 3 and "@ + decimal_text(maximum as nat)
                    + " taps (requested "@ + decimal_text(requested as nat) + ")"@,
            Error::IncompleteFrame { samples, channels } => decimal_text(samples as nat)
                + " samples do not form complete "@ + decimal_text(channels as nat)
                + "-channel frames"@,
            Error::StreamFinished => "reset the resampler before starting another stream"@,
            Error::SizeOverflow => "sample count exceeds storage or timing limits"@,
        }
    }

    /// A human-readable description of the error.
    pub fn message(&self) -> (text: String)
        ensures
            text@ == self.message_text(),
    {
        match *self {
            Error::ZeroSampleRate => "sample rates must be nonzero".to_owned(),
            Error::ZeroChannels => "channel count must be nonzero".to_owned(),
            Error::InvalidFilterLength { requested, maximum } => {
                "filter length must be odd and between 3 and ".to_owned().concat(
                    decimal(maximum).as_str(),
                ).concat(" taps (requested ").concat(decimal(requested).as_str()).concat(")")
            },
            Error::IncompleteFrame { samples, channels } => {
                decimal(samples).concat(" samples do not form complete ").concat(
                    decimal(channels).as_str(),
                ).concat("-channel frames")
            },
            Error::StreamFinished => {
                "reset the resampler before starting another stream".to_owned()
            },
            Error::SizeOverflow => "sample count exceeds storage or timing limits".to_owned(),
        }
    }
}

} // verus!
