# crabjuice

Small building blocks for audio processing, written and verified in Verus: parameters with
linear normalized conversion, MIDI events, channel-major audio buffers, a realtime-style
processor trait and a few processors.

| Module | Purpose |
| --- | --- |
| `parameter` | Parameter errors, identifiers and single-precision parameters. |
| `midi` | MIDI events with block-relative sample offsets. |
| `audio` | `AudioBuffer`, `ProcessContext` and the `AudioProcessor` trait. |
| `dsp::gain` | `GainProcessor`: linear gain in `0.0..=4.0`. |
| `dsp::delay` | `DelayLine`: fixed-capacity circular delay line. |
| `dsp::chain` | `ProcessorChain`: sequential container of processors, boxed or of one type. |
| `dsp::low_pass` | `OnePoleLowPass`: one-pole low-pass filter with per-channel state. |
| `sample` | `Sample`: a single-precision number as its bit pattern, with its arithmetic. |
| `number` | The exact values that samples stand for. |
| `rounding` | Rounding of exact quotients to single precision. |

## How numbers are treated

A `Sample` is the bit pattern of a single-precision number; its view is a `Number`: undefined,
an infinity, or a signed whole number of least positive values. Sums, products and quotients are
exact results rounded to nearest, ties to even, and the executable operations are proved to
return just these. No contract rests on an unproved item.

Two things are handed to the library by its caller: the exponential that the filter computes its
coefficient with, and how a number is rendered in an error's message.

## How processors are described

An `AudioProcessor` has a state, which is what it remembers, and a kind, which says how each method
leads from one state to the next. Every call keeps the kind, so that a processor stays known through
any number of calls, on its own, in a box or in a chain.

## Laws

The public proof functions whose names begin with `law_` state what holds across functions: that
a delay line gives back what was pushed, that a filter does not see where a stream is cut into
blocks, that conversions keep the order of values, and so on.

`app/` holds an example program that processes a stereo buffer with linear gain.
