//! Timing of the scripted demo.

use vstd::prelude::*;

verus! {

/// Delays of the scripted demo, in milliseconds.
#[derive(Debug, Clone, Copy, PartialEq, Eq, Structural)]
pub struct DemoTiming {
    /// Delay after each typed character.
    pub char_delay: u64,
    /// Delay after each editor action.
    pub key_delay: u64,
}

impl Default for DemoTiming {
    fn default() -> (t: Self)
        ensures
            t.char_delay == 50,
            t.key_delay == 150,
    {
        DemoTiming { char_delay: 50, key_delay: 150 }
    }
}

} // verus!
