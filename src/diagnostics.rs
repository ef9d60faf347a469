use vstd::prelude::*;

verus! {

/// How serious a diagnostic is.
#[derive(Clone, Copy, Debug, PartialEq, Eq, Structural)]
pub enum Level {
    Warning,
    Error,
}

/// A message about a source file, optionally pointing at a byte range of it.
#[derive(Clone, Debug, PartialEq, Eq)]
pub struct Info {
    pub level: Level,
    pub filename: String,
    pub message: String,
    pub position: Option<std::ops::Range<usize>>,
    pub source: Option<String>,
}

} // verus!
