# stickoverlay

Renders transparent control-stick overlay videos from Betaflight blackbox logs:
two gimbal boxes with moving dots, to be laid over FPV flight footage in a video
editor.

The logic is a library that is verified with [Verus](https://github.com/verus-lang/verus);
the program around it does the file and process I/O and the floating-point
geometry.

## Layout

| Path              | What it holds                                                       |
|-------------------|---------------------------------------------------------------------|
| `src/firmware.rs` | rewriting firmware revisions that the log decoder does not know     |
| `src/decoder.rs`  | the calls into the `blackbox_log` crate                              |
| `src/log.rs`      | flights: finding the RC channels, samples, ranges, skipped logs      |
| `src/resample.rs` | finding the samples around a point in time                           |
| `src/sticks.rs`   | radio modes, and what a channel is measured by                       |
| `src/style.rs`    | the default look                                                     |
| `src/color.rs`    | colors as `RRGGBB` and `RRGGBBAA`                                    |
| `src/options.rs`  | canvas size, colors, lengths and ranges given as options             |
| `src/canvas.rs`   | the calls into the `tiny_skia` crate                                 |
| `src/render.rs`   | drawing a frame: boxes, trail, dots, straight alpha                  |
| `src/inputs.rs`   | which files to read, each once and in order                          |
| `src/output.rs`   | the work list and the names of the output files                      |
| `src/encode.rs`   | codecs, and the encoder's command line                               |
| `src/text.rs`     | characters, decimal numerals, integer parsing                        |
| `app/`            | the program: arguments, files, `ffmpeg`, floating point              |
| `tests/`          | tests of the library                                                 |

Values that are floating point in the program (lengths, channel values between
samples) pass through the library as a type parameter: it decides which of them
is used where, and the program computes with them.

## What is trusted

`src/canvas.rs` and `src/decoder.rs` hold the contracts of the outside functions,
which are believed and not proved, each next to the call it speaks of.
`src/text.rs` and `src/firmware.rs` hold one more each, for `String::push` and
`std::str::from_utf8`.
