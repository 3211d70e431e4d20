//! What a project's MIDI settings default to, and what validating a project reports.
use vstd::prelude::*;

verus! {

/// A project's MIDI routing and look-ahead.
#[derive(Clone, Debug, PartialEq, Eq)]
pub struct MidiSettings {
    pub port: Option<String>,
    pub virtual_port: bool,
    pub send_clock: bool,
    pub lookahead_ms: u64,
}

impl Default for MidiSettings {
    fn default() -> (r: MidiSettings)
        ensures
            r.port is None,
            !r.virtual_port,
            !r.send_clock,
            r.lookahead_ms == 100,
    {
        MidiSettings { port: None, virtual_port: false, send_clock: false, lookahead_ms: 100 }
    }
}

/// The files a validation read and the errors it found; valid when there are none.
#[derive(Clone, Debug, PartialEq, Eq)]
pub struct Validation {
    pub valid: bool,
    pub files: Vec<String>,
    pub errors: Vec<String>,
}

impl Validation {
    /// A report over `files` with `errors`: valid exactly when there are no errors.
    pub fn report(files: Vec<String>, errors: Vec<String>) -> (r: Validation)
        ensures
            r.valid == (errors@.len() == 0),
            r.files == files,
            r.errors == errors,
    {
        let valid = errors.len() == 0;
        Validation { valid, files, errors }
    }
}

} // verus!
