//! The error that carries a message of the proxy's own.

use vstd::prelude::*;

verus! {

/// A failure that the proxy reports in its own words.
#[derive(Debug)]
pub struct UtilError {
    pub message: String,
}

impl UtilError {
    /// How the error is shown: its message.
    pub fn to_string(&self) -> (text: String)
        ensures
            text@ == self.message@,
    {
        self.message.clone()
    }
}

} // verus!
