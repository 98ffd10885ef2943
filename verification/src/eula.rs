//! The first-run licence gate: which version of the agreement counts as
//! accepted, and where the acceptance is recorded.

use vstd::prelude::*;
use crate::paths::{joined, Syntax};
use crate::text::same_text;

verus! {

/// The version a user's acceptance is recorded against.
pub const VERSION: &'static str = "2026-07-29";

/// The name of the file acceptance is recorded in, under the per-user data folder.
pub const RECORD_NAME: &'static str = "eula.json";

/// Where acceptance is recorded: beside the presets, per user, never in a project.
pub fn path(data_dir: Option<String>, sx: Syntax) -> (r: Option<String>)
    ensures
        match data_dir {
            Some(d) => r is Some && r->Some_0@ == joined(d@, RECORD_NAME@, sx),
            None => r is None,
        },
{
    match data_dir {
        Some(d) => Some(crate::paths::join_name(d.as_str(), RECORD_NAME, sx)),
        None => None,
    }
}

/// Whether the recorded acceptance is of the version this build ships: a
/// record of any other version, or of none, asks for acceptance again.
pub fn accepted(accepted_version: &Option<String>) -> (r: bool)
    ensures
        r == (accepted_version is Some && accepted_version->Some_0@ == VERSION@),
{
    match accepted_version {
        Some(v) => same_text(v.as_str(), VERSION),
        None => false,
    }
}

} // verus!
