# vtt_to_lrc

Converts a WebVTT subtitle file (`WEBVTT`, an empty line, then cues of a
`hh:mm:ss.mmm --> hh:mm:ss.mmm` line and their text lines) into an LRC
lyric file with one `[mm:ss.xx]text` line per cue text line.

- `src/` is the library, verified with Verus: the reader (`vtt.rs`), the
  writer (`lrc.rs`), the option reader (`cli.rs`), shared text and number
  handling (`text.rs`, `number.rs`), the error type (`error.rs`), and the
  properties proved of them together (`laws.rs`).
- `app/` is the program around it: it reads the input file, prints the
  reader's warnings, asks before overwriting the output file and writes it.
- `tests/` runs the library on concrete inputs.

Usage: `vtt_to_lrc <input.vtt> [-o <output.lrc>]`; without `-o` the output
name is the input name with `.vtt` replaced by `.lrc`.
