//! An optimising compiler core for the eight-token tape language:
//! a parser from source text to a typed instruction tree, a fixed pipeline
//! of rewriting passes over that tree, and the laws the pipeline obeys.
pub mod bfir;
pub mod diagnostics;
pub mod display;
pub mod normal_form;
pub mod optimize;
pub mod semantics;
pub mod seqs;
