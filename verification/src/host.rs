//! The operations that consult the host machine rather than the model.
//!
//! Everything the operating system decides — whether a live path
//! exists, whether a working-directory change took, how a spawned
//! command ended — enters the library as a plain value; the rules that
//! turn such a value into the reported outcome are stated and proved
//! here.

use vstd::prelude::*;

verus! {

/// Reports whether `path` names a node — file, directory or other —
/// of the live filesystem.
///
/// Relies on `std::path::Path::exists`: the answer reflects the state
/// of the machine's filesystem at the moment of the call, so nothing
/// further is promised of it.
#[verifier::external_body]
pub fn path_exists(path: &str) -> bool {
    std::path::Path::new(path).exists()
}

/// The exit-code outcome of running an external command: the spawn
/// outcome collapsed to the code the process produced, absent when it
/// could not be spawned at all or ended without a code.
pub open spec fn exit_code_spec(spawned: Option<Option<i32>>) -> Option<i32> {
    match spawned {
        Option::Some(code) => code,
        Option::None => Option::None,
    }
}

/// Collapses the outcome of spawning a command and waiting for it —
/// absent, or finished with or without a code — into the exit-code
/// result that `run_command` reports.
pub fn exit_code(spawned: Option<Option<i32>>) -> (r: Option<i32>)
    ensures
        r == exit_code_spec(spawned),
{
    match spawned {
        Some(code) => code,
        None => None,
    }
}

/// The present-or-absent signal that `cd` reports: present exactly
/// when the working directory was changed.
pub open spec fn cd_spec(changed: bool) -> Option<()> {
    if changed {
        Option::Some(())
    } else {
        Option::None
    }
}

/// Turns the success of a working-directory change into the signal
/// that `cd` reports.
pub fn cd_outcome(changed: bool) -> (r: Option<()>)
    ensures
        r == cd_spec(changed),
{
    if changed {
        Some(())
    } else {
        None
    }
}

} // verus!
