use crate::cdcl::heuristics::restart::{FixedIntervalHeuristic, LubyHeuristic, Never};
use crate::cdcl::heuristics::RestartHeuristic;
use vstd::prelude::*;

verus! {

/// The restart heuristics a user can pick.
#[derive(Debug, Clone, Copy, PartialEq, Eq, Structural)]
pub enum HeuristicCliArgument {
    Never,
    FixedInterval,
    Geometric,
    Luby,
}

/// The fixed interval, in conflicts, of the fixed-interval restart heuristic.
pub const FIXED_RESTART_POLICY: usize = 700;

/// The most restarts the fixed-interval, geometric and Luby heuristics allow.
pub const MAX_RESTARTS: usize = 10;

impl HeuristicCliArgument {
    /// The restart heuristic this choice stands for, with its default settings. The geometric
    /// heuristic grows its threshold by a fractional factor, so it is built by the caller:
    /// for it the result is `None`.
    pub fn get(&self) -> (r: Option<Box<dyn RestartHeuristic>>)
        ensures
            r is None <==> *self == HeuristicCliArgument::Geometric,
    {
        match self {
            HeuristicCliArgument::Never => Some(Box::new(Never {})),
            HeuristicCliArgument::FixedInterval => Some(
                Box::new(
                    FixedIntervalHeuristic {
                        fixed_restart_policy: FIXED_RESTART_POLICY,
                        max_restarts: MAX_RESTARTS,
                    },
                ),
            ),
            HeuristicCliArgument::Geometric => None,
            HeuristicCliArgument::Luby => Some(Box::new(LubyHeuristic::new(MAX_RESTARTS))),
        }
    }
}

/// The options of the solver's command line.
#[derive(Debug)]
pub struct CliArguments {
    /// The input file to solve in DIMACS CNF format
    pub input_file: String,
    /// Disable the preprocessor
    pub disable_preprocess: bool,
    /// Enable phase saving
    pub phase_saving: bool,
    /// Enable proof logging (disables preprocessing)
    pub proof_logging: bool,
    /// The heuristic to use for restarts
    pub restart_heuristic: HeuristicCliArgument,
}

impl CliArguments {
    pub fn get_input_file(&self) -> (r: String)
        ensures
            r@ == self.input_file@,
    {
        self.input_file.clone()
    }

    pub fn get_disable_preprocess(&self) -> (r: bool)
        ensures
            r == self.disable_preprocess,
    {
        self.disable_preprocess
    }

    pub fn get_proof_logging(&self) -> (r: bool)
        ensures
            r == self.proof_logging,
    {
        self.proof_logging
    }

    pub fn get_phase_saving(&self) -> (r: bool)
        ensures
            r == self.phase_saving,
    {
        self.phase_saving
    }

    /// The chosen restart heuristic.
    pub fn get_restart_heuristic(&self) -> (r: HeuristicCliArgument)
        ensures
            r == self.restart_heuristic,
    {
        self.restart_heuristic
    }
}

} // verus!
