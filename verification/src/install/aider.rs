//! Aider installer: Aider has no tool hooks, so the integration is the
//! capability block in `AGENTS.md`, read every session.

use vstd::prelude::*;
use crate::install::githook::opt_chars_str;
use crate::install::{
    action_view, capability_block, capability_text, remove_marker_block, removal_action,
    upsert_marker_block, upsert_outcome, upserted_text, FileAction, UpsertResult,
};

verus! {

broadcast use vstd::string::group_string_axioms;

/// Install the capability block into `AGENTS.md` (`None`: absent): the
/// outcome and the new contents.
pub fn install(agents_md: Option<&str>) -> (r: (UpsertResult, String))
    ensures
        r.1@ == upserted_text(opt_chars_str(agents_md), capability_text()),
        r.0 == upsert_outcome(opt_chars_str(agents_md), capability_text()),
{
    let block = capability_block();
    upsert_marker_block(agents_md, block.as_str())
}

/// Remove the capability block from `AGENTS.md`: whether it was there,
/// and what to do with the file.
pub fn uninstall(agents_md: Option<&str>) -> (r: (bool, FileAction))
    ensures
        action_view(r.1) == removal_action(opt_chars_str(agents_md)),
        r.0 == (action_view(r.1) is Some),
{
    remove_marker_block(agents_md)
}

} // verus!
