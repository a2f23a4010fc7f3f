//! A verified interpreter for a minimal eight-symbol tape language.
//!
//! The pipeline has three stages: `parser` turns source text into a
//! sequence of instructions with mutually resolved loop brackets,
//! `optimizer` rewrites that sequence into an equivalent one with
//! fewer, higher-multiplicity instructions, and `interpreter` runs the
//! sequence against a fixed-size tape of wrapping byte cells,
//! consuming an input byte stream and producing an output byte stream.
//! `semantics` holds the mathematical model of the tape machine that
//! the executor is verified against, `equivalence` proves that the
//! optimizer never changes a run's observable outcome, and `cli`
//! holds the source-file name check used by callers that load
//! programs from disk.

pub mod cli;
pub mod equivalence;
pub mod interpreter;
pub mod optimizer;
pub mod parser;
pub mod semantics;
