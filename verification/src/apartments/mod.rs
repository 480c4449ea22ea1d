//! The apartment-building record store: code parsing, the building model,
//! the persisted text format, and the file-discovery protocol.

pub mod codec;
pub mod locate;
pub mod model;
pub mod text;

use vstd::prelude::*;

use crate::app::Commands;
use model::{add_outcome, add_result, occupy_outcome, occupy_result, Building};

verus! {

/// The add phase of one invocation: `mid` is the building after the
/// requested addition, or the untouched building when none was asked.
pub open spec fn add_step(pre: Building, add: Option<String>, mid: Building) -> bool {
    match add {
        Some(code) => add_outcome(pre, code@, mid, add_result(pre, code@)),
        None => mid == pre,
    }
}

/// The occupy phase of one invocation, from the building the add phase
/// left behind.
pub open spec fn occupy_step(mid: Building, occupy: Option<String>, post: Building) -> bool {
    match occupy {
        Some(code) => occupy_outcome(mid, code@, post, occupy_result(mid, code@)),
        None => post == mid,
    }
}

/// Whether the add phase signals failure.
pub open spec fn add_failed(pre: Building, add: Option<String>) -> bool {
    match add {
        Some(code) => add_result(pre, code@) is Err,
        None => false,
    }
}

/// Whether the occupy phase signals failure.
pub open spec fn occupy_failed(mid: Building, occupy: Option<String>) -> bool {
    match occupy {
        Some(code) => occupy_result(mid, code@) is Err,
        None => false,
    }
}

/// Applies one invocation's commands to the building: the requested
/// addition first, then the requested occupation; listing is read-only
/// and the embedding program prints it from the building itself. The
/// result signals whether any requested operation failed.
pub fn run_commands(building: &mut Building, cmd: &Commands) -> (failed: bool)
    ensures
        old(building).wf() ==> final(building).wf(),
        match *cmd {
            Commands::Apartments { list: _, ref occupy, ref add } => exists|mid: Building|
                {
                    &&& #[trigger] add_step(*old(building), *add, mid)
                    &&& occupy_step(mid, *occupy, *final(building))
                    &&& failed == (add_failed(*old(building), *add) || occupy_failed(mid, *occupy))
                },
            _ => *final(building) == *old(building) && !failed,
        },
{
    match cmd {
        Commands::Apartments { list: _, occupy, add } => {
            let mut failed = false;
            match add {
                Some(code) => {
                    match building.add_apartment(code.as_str()) {
                        Ok(()) => {},
                        Err(_) => {
                            failed = true;
                        },
                    }
                },
                None => {},
            }
            let ghost mid = *building;
            match occupy {
                Some(code) => {
                    match building.occupy_apartment(code.as_str()) {
                        Ok(()) => {},
                        Err(_) => {
                            failed = true;
                        },
                    }
                },
                None => {},
            }
            proof {
                assert(add_step(*old(building), *add, mid));
                assert(occupy_step(mid, *occupy, *building));
            }
            failed
        },
        _ => false,
    }
}

} // verus!
