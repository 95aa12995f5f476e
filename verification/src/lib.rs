//! Core of a streaming LZMA/xz codec: the adaptive range coder, the
//! branch-converter filters, the stream index and the coding-session state
//! machine, each with machine-checked contracts.

pub mod api;
pub mod bitops;
pub mod seqs;
pub mod common;
pub mod rangecoder;
pub mod simple;
pub mod tuklib;
