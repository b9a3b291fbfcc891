# tuneout_resampler

Streaming polyphase sample-rate conversion for interleaved PCM, written and proved in Verus.

## What is proved

A stream is described by what it converts, not by how its blocks are cut: `src/stream.rs`
gives, for every output frame, its exact position between two input frames and the sum that
makes its samples. The contracts of `Fir` and `Resampler` say which frames each call returns
and with which bits. On top of them `src/laws.rs` and `src/resampler.rs` prove that

- the whole output has `ceil(input_frames * output_rate / input_rate)` frames, on an exact
  rational grid that never drifts;
- block boundaries, tiles and vector widths do not change a sample, for filters of any length;
- what is held back stays within the reported lookahead and tile;
- each channel returns what a mono stream of it returns, and narrow streams round what wide
  streams return;
- refused blocks change nothing, and finishing twice changes nothing.

`src/agreement.rs` proves of two converters that equal settings, custom lengths under either
policy, and a reset and a fresh converter report and answer the same, call by call.

## Arithmetic

Samples and coefficients are the bits of binary64 numbers. The library never rounds a number
itself: it asks an `Arithmetic` for single operations and fixes the order in which they are
made. Every contract on sample values holds of whatever those operations compute, as long as
each is a function of its operands. Support selection needs no such help: its divisions are
rounded to binary64 in integers.

## Layout

| Module | Content |
| --- | --- |
| `config` | Lengths, policies, errors and their messages |
| `design` | Phases, taps and resource limits of a rate pair |
| `wide`, `precision`, `bank` | Extended-precision coefficients and the layout of a bank |
| `cache`, `host` | Banks shared between streams and threads, and what a machine provides |
| `backend`, `kernels` | Tile selection and convolution |
| `stream`, `fir` | The model of a stream and the stream itself |
| `resampler` | The public converter |
| `behaviour` | What a converter's answers depend on, and what they are |
| `laws`, `agreement` | What holds of whole streams, and of two converters |

`app/` is the converter on `f64` and `f32`, with the processor's arithmetic, its vector units
and one set of shared banks for the whole process.

Nothing is trusted: every contract in `src/` is proved.
