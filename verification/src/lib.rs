//! Conversion of WebVTT subtitle files into LRC lyric files.
//!
//! The library holds the logic, each function with its contract:
//! - `vtt`: the WebVTT reader, from the bytes of a file to its cues;
//! - `lrc`: the LRC writer, from cues to the lines of the file, and the
//!   answer to the question whether to overwrite it;
//! - `cli`: the reader of the command-line options;
//! - `text` and `number`: the pieces of text handling they share;
//! - `error`: the error type;
//! - `laws`: what holds of them together, proved.
//!
//! Files, the terminal and the process environment are the application's.
pub mod error;

pub mod cli;
pub mod laws;
pub mod lrc;
pub mod number;
pub mod text;
pub mod vtt;
