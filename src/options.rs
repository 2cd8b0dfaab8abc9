//! All settings of a run.
use vstd::prelude::*;
use crate::{input, ui};

verus! {

/// Whether to write a log, the sources, and the display settings.
#[derive(Debug, Clone)]
pub struct Options {
    pub log: bool,
    pub inputs: input::Options,
    pub ui: ui::Options,
}

} // verus!
