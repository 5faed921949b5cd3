//! Cursor installer: one always-applied rule file,
//! `.cursor/rules/sigil.mdc`, with Cursor's front matter and the
//! capability block. Reading, writing and removing the file is the
//! caller's part.

use vstd::prelude::*;
use crate::install::{capability_block, capability_text, whole_file_outcome, whole_file_result, UpsertResult};
use crate::install::githook::opt_chars_str;

verus! {

broadcast use vstd::string::group_string_axioms;

/// The rule file's front matter.
pub open spec fn front_matter() -> Seq<char> {
    "---\ndescription: Sigil \u{2014} deterministic structural code intelligence.\nalwaysApply: true\nglobs:\n  - \"**/*\"\n---\n\n"@
}

/// The rule file's contents.
pub open spec fn rule_text() -> Seq<char> {
    front_matter() + capability_text() + "\n"@
}

/// The rule file's contents.
pub fn rule_content() -> (r: String)
    ensures
        r@ == rule_text(),
{
    let mut s = String::from_str(
        "---\ndescription: Sigil \u{2014} deterministic structural code intelligence.\nalwaysApply: true\nglobs:\n  - \"**/*\"\n---\n\n",
    );
    let block = capability_block();
    s.append(block.as_str());
    s.append("\n");
    s
}

/// Install the rule given the current rule file (`None`: absent): the
/// outcome, and the contents to write unless it is `Unchanged`.
pub fn install(rule_mdc: Option<&str>) -> (r: (UpsertResult, String))
    ensures
        r.1@ == rule_text(),
        r.0 == whole_file_outcome(opt_chars_str(rule_mdc), rule_text()),
{
    let content = rule_content();
    let outcome = whole_file_result(rule_mdc, content.as_str());
    (outcome, content)
}

} // verus!
