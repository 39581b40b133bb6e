//! Command-line configuration of the editor, as plain values.

use vstd::prelude::*;

verus! {

/// The configuration the editor runs with.
#[derive(Debug, Clone)]
pub struct Config {
    /// File to open (not required in demo mode)
    pub file: Option<String>,
    /// Run in demo mode with scripted input
    pub demo: bool,
    /// Font for regular text
    pub text_font: String,
    /// Font for code blocks and inline code
    pub code_font: String,
}

impl Config {
    /// Check the configuration. A file that does not exist yet is fine: it is
    /// created on save, so every configuration is accepted as it is.
    pub fn validate(self) -> (r: Result<Self, String>)
        ensures
            r == Ok::<Config, String>(self),
    {
        Ok(self)
    }
}

} // verus!
