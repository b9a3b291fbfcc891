//! What the answers of a converter depend on, and what they are.

use vstd::prelude::*;

use crate::arithmetic::Model;
use crate::config::Error;
use crate::design::ceil_div;
use crate::fir::{narrowed, promoted, MAX_STREAM_FRAMES};
use crate::stream::{after_block, block_output, fresh_state, Geometry, StreamState};

verus! {

/// Most output frames that a block of `frames` input frames can bring, while `pending`
/// frames are held back.
pub open spec fn output_bound(
    frames: nat,
    pending: nat,
    input_rate: nat,
    output_rate: nat,
) -> nat {
    ceil_div((frames + pending + 2) * output_rate, input_rate) + 8
}

/// A filter and how far its stream has come.
pub struct Filtering {
    /// The constants of the conversion.
    pub geometry: Geometry,
    /// The coefficients.
    pub bank: Seq<u64>,
    /// Rational periods in one tile.
    pub periods: nat,
    /// The stream between two blocks.
    pub state: StreamState,
}

/// Everything that the answers of a converter depend on.
pub struct Behaviour {
    /// Input sample rate.
    pub input_rate: u32,
    /// Output sample rate.
    pub output_rate: u32,
    /// Interleaved channels per frame.
    pub channels: usize,
    /// The filter. None for equal rates.
    pub filtering: Option<Filtering>,
    /// Input frames of the stream so far.
    pub input_frames: nat,
    /// The final block has been processed.
    pub finished: bool,
}

/// A block that is handed to a converter.
pub enum Call {
    /// Wide samples, and whether they end the stream.
    Wide(Seq<u64>, bool),
    /// Narrow samples, and whether they end the stream.
    Narrow(Seq<u32>, bool),
}

/// What a converter returns for a block.
pub enum Answer {
    /// Wide samples.
    Wide(Seq<u64>),
    /// Narrow samples.
    Narrow(Seq<u32>),
    /// The block is refused.
    Refused(Error),
}

impl Behaviour {
    /// Frames that a stream may hold back: its lookahead and one tile.
    pub open spec fn pending(self) -> nat {
        match self.filtering {
            Some(f) => (f.geometry.half() + f.periods * f.geometry.step_num) as nat,
            None => 0,
        }
    }

    /// Why a block of `samples` is refused, if it is.
    pub open spec fn block_error(self, samples: usize) -> Option<Error> {
        let frames = samples as nat / self.channels as nat;
        if self.finished && samples != 0 {
            Some(Error::StreamFinished)
        } else if samples as nat % self.channels as nat != 0 {
            Some(Error::IncompleteFrame { samples, channels: self.channels })
        } else if self.input_frames + frames > MAX_STREAM_FRAMES || output_bound(
            frames,
            self.pending(),
            self.input_rate as nat,
            self.output_rate as nat,
        ) * self.channels > isize::MAX as int / 8 {
            Some(Error::SizeOverflow)
        } else {
            None
        }
    }

    /// After a block that was accepted while the stream went on, of which tiles of `periods`
    /// periods were emitted.
    pub open spec fn after(self, periods: nat, samples: Seq<u64>, end_of_stream: bool) -> Self {
        Behaviour {
            filtering: match self.filtering {
                Some(f) => Some(
                    Filtering {
                        state: after_block(f.geometry, periods, f.state, samples, end_of_stream),
                        ..f
                    },
                ),
                None => None,
            },
            input_frames: self.input_frames + samples.len() / self.channels as nat,
            finished: end_of_stream,
            ..self
        }
    }

    /// After a block of wide samples.
    pub open spec fn after_wide(self, samples: Seq<u64>, end_of_stream: bool) -> Self {
        if self.finished || self.block_error(samples.len() as usize) is Some {
            self
        } else {
            self.after(
                match self.filtering {
                    Some(f) => f.periods,
                    None => 0,
                },
                samples,
                end_of_stream,
            )
        }
    }

    /// After a block of narrow samples, which are never held back in tiles.
    pub open spec fn after_narrow(
        self,
        model: Model,
        samples: Seq<u32>,
        end_of_stream: bool,
    ) -> Self {
        if self.finished || self.block_error(samples.len() as usize) is Some {
            self
        } else {
            self.after(0, promoted(model, samples), end_of_stream)
        }
    }

    /// What a block of wide samples brings.
    pub open spec fn wide_answer(
        self,
        model: Model,
        samples: Seq<u64>,
        end_of_stream: bool,
    ) -> Result<Seq<u64>, Error> {
        match self.block_error(samples.len() as usize) {
            Some(error) => Err(error),
            None => if self.finished {
                Ok(Seq::empty())
            } else {
                match self.filtering {
                    Some(f) => Ok(
                        block_output(
                            model,
                            f.geometry,
                            f.bank,
                            f.periods,
                            f.state,
                            samples,
                            end_of_stream,
                        ),
                    ),
                    None => Ok(samples),
                }
            },
        }
    }

    /// What a block of narrow samples brings.
    pub open spec fn narrow_answer(
        self,
        model: Model,
        samples: Seq<u32>,
        end_of_stream: bool,
    ) -> Result<Seq<u32>, Error> {
        match self.block_error(samples.len() as usize) {
            Some(error) => Err(error),
            None => if self.finished {
                Ok(Seq::empty())
            } else {
                match self.filtering {
                    Some(f) => Ok(
                        narrowed(
                            model,
                            block_output(
                                model,
                                f.geometry,
                                f.bank,
                                0,
                                f.state,
                                promoted(model, samples),
                                end_of_stream,
                            ),
                        ),
                    ),
                    None => Ok(samples),
                }
            },
        }
    }

    /// At the start of a stream.
    pub open spec fn restarted(self) -> Self {
        Behaviour {
            filtering: match self.filtering {
                Some(f) => Some(Filtering { state: fresh_state(), ..f }),
                None => None,
            },
            input_frames: 0,
            finished: false,
            ..self
        }
    }

    /// What a block brings.
    pub open spec fn answer(self, model: Model, call: Call) -> Answer {
        match call {
            Call::Wide(samples, end_of_stream) => match self.wide_answer(
                model,
                samples,
                end_of_stream,
            ) {
                Ok(output) => Answer::Wide(output),
                Err(error) => Answer::Refused(error),
            },
            Call::Narrow(samples, end_of_stream) => match self.narrow_answer(
                model,
                samples,
                end_of_stream,
            ) {
                Ok(output) => Answer::Narrow(output),
                Err(error) => Answer::Refused(error),
            },
        }
    }

    /// After a block.
    pub open spec fn after_call(self, model: Model, call: Call) -> Self {
        match call {
            Call::Wide(samples, end_of_stream) => self.after_wide(samples, end_of_stream),
            Call::Narrow(samples, end_of_stream) => self.after_narrow(
                model,
                samples,
                end_of_stream,
            ),
        }
    }

    /// After several blocks.
    pub open spec fn after_calls(self, model: Model, calls: Seq<Call>) -> Self
        decreases calls.len(),
    {
        if calls.len() == 0 {
            self
        } else {
            self.after_calls(model, calls.drop_last()).after_call(model, calls.last())
        }
    }

    /// What several blocks bring, one after the other.
    pub open spec fn answers(self, model: Model, calls: Seq<Call>) -> Seq<Answer> {
        Seq::new(
            calls.len(),
            |i: int| self.after_calls(model, calls.take(i)).answer(model, calls[i]),
        )
    }
}

/// Blocks change neither the configuration nor the filter, so a restarted stream is the same
/// whatever came before.
pub proof fn law_restarting_forgets_all_calls(model: Model, behaviour: Behaviour, calls: Seq<Call>)
    ensures
        behaviour.after_calls(model, calls).restarted() == behaviour.restarted(),
    decreases calls.len(),
{
    if calls.len() > 0 {
        law_restarting_forgets_all_calls(model, behaviour, calls.drop_last());
    }
}

} // verus!
