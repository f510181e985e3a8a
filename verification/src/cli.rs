//! The command-line front end.

use vstd::prelude::*;
use crate::error::BtcError;

verus! {

/// The command-line interface; its argument parsing is done by the program
/// that uses the library.
pub struct Cli {}

impl Cli {
    /// A command-line interface; making one cannot fail.
    pub fn new() -> (r: Result<Cli, BtcError>)
        ensures
            r is Ok,
    {
        Ok(Cli {})
    }
}

} // verus!
