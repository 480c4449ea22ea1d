//! The option and command types the embedding command-line program hands
//! to the library, and the run record it keeps.
//!
//! The embedding program owns argument parsing and printing; these types
//! only carry the parsed choices into the verified core.

use vstd::prelude::*;

verus! {

/// The options one invocation runs with.
pub struct AppOptions {
    /// How much diagnostic output the embedding program prints.
    pub verbosity: u8,
    /// The requested command, if any.
    pub command: Option<Commands>,
}

/// The commands an invocation may request.
pub enum Commands {
    /// Operations on the apartment building.
    Apartments {
        /// List the floors and their apartments.
        list: bool,
        /// Occupy the apartment with this code.
        occupy: Option<String>,
        /// Add an apartment with this code.
        add: Option<String>,
    },
    /// A placeholder exercise with no stored state.
    Bookshelf {},
}

impl Default for AppOptions {
    fn default() -> (r: Self)
        ensures
            r.verbosity == 0,
            r.command is None,
    {
        AppOptions { verbosity: 0, command: None }
    }
}

/// One run of the program: its options and the exit code so far.
pub struct RunExercises {
    pub options: AppOptions,
    pub exit_code: i32,
}

impl RunExercises {
    /// A fresh run: default options, success exit code.
    pub fn new() -> (r: RunExercises)
        ensures
            r.exit_code == 0,
            r.options.verbosity == 0,
            r.options.command is None,
    {
        RunExercises { options: AppOptions::default(), exit_code: 0 }
    }
}

impl Default for RunExercises {
    fn default() -> (r: Self)
        ensures
            r.exit_code == 0,
            r.options.verbosity == 0,
            r.options.command is None,
    {
        RunExercises::new()
    }
}

} // verus!
