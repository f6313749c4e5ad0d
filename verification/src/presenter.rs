//! How results are shown on the command line.

use vstd::prelude::*;

verus! {

/// Presentation settings for the command line: verbose output shows whole
/// numbers, quiet output shows only the number.
pub struct CLIResultPresenter {
    verbose: bool,
    quiet: bool,
}

impl CLIResultPresenter {
    /// A presenter with the given settings.
    pub fn new(verbose: bool, quiet: bool) -> (r: Self)
        ensures
            r.is_verbose() == verbose,
            r.is_quiet() == quiet,
    {
        CLIResultPresenter { verbose, quiet }
    }

    /// Whether whole numbers are shown.
    pub closed spec fn is_verbose(&self) -> bool {
        self.verbose
    }

    /// Whether only the number is shown.
    pub closed spec fn is_quiet(&self) -> bool {
        self.quiet
    }

    /// Whether whole numbers are shown.
    pub fn verbose(&self) -> (r: bool)
        ensures
            r == self.is_verbose(),
    {
        self.verbose
    }

    /// Whether only the number is shown.
    pub fn quiet(&self) -> (r: bool)
        ensures
            r == self.is_quiet(),
    {
        self.quiet
    }
}

} // verus!
