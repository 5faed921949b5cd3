//! GitHub Copilot CLI installer: a skill file under the user's home,
//! `.copilot/skills/sigil/SKILL.md`, holding the capability block.
//! Locating the home directory and writing or removing the file is the
//! caller's part.

use vstd::prelude::*;
use crate::install::{capability_block, capability_text, whole_file_outcome, whole_file_result, UpsertResult};
use crate::install::githook::opt_chars_str;

verus! {

broadcast use vstd::string::group_string_axioms;

/// The skill file's contents.
pub open spec fn skill_text() -> Seq<char> {
    "# sigil skill\n\n"@ + capability_text() + "\n"@
}

/// The skill file's contents.
pub fn skill_content() -> (r: String)
    ensures
        r@ == skill_text(),
{
    let mut s = String::from_str("# sigil skill\n\n");
    let block = capability_block();
    s.append(block.as_str());
    s.append("\n");
    s
}

/// Install the skill given the current `SKILL.md` (`None`: absent): the
/// outcome, and the contents to write unless it is `Unchanged`.
pub fn install(skill_md: Option<&str>) -> (r: (UpsertResult, String))
    ensures
        r.1@ == skill_text(),
        r.0 == whole_file_outcome(opt_chars_str(skill_md), skill_text()),
{
    let content = skill_content();
    let outcome = whole_file_result(skill_md, content.as_str());
    (outcome, content)
}

} // verus!
