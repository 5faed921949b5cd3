//! Gemini CLI installer: the capability block in `GEMINI.md`, and a
//! `BeforeTool` hook in `.gemini/settings.json` that prints sigil's
//! reminder before file-reading tools run.

use vstd::prelude::*;
use crate::fmt::push_str;
use crate::install::githook::opt_chars_str;
use crate::install::json::{json_object2, json_str, jv, Json, JsonV};
use crate::install::settings::{
    hooks_removed, hooks_upserted, json_action_view, remove_hooks, result_view, upsert_hooks,
    JsonAction, SettingsError,
};
use crate::install::{
    action_view, capability_block, capability_text, remove_marker_block, removal_action,
    shell_escape_single_quoted, shell_escaped, upsert_marker_block, upsert_outcome, upserted_text,
    FileAction, UpsertResult,
};
use crate::text::string_from;

verus! {

broadcast use vstd::string::group_string_axioms;

/// What an install did, per artifact.
#[derive(Debug, Clone, Copy, PartialEq, Eq, Structural)]
pub enum InstallStep {
    GeminiMd(UpsertResult),
    Settings(UpsertResult),
}

/// What an uninstall removed, per artifact.
#[derive(Debug, Clone, Copy, PartialEq, Eq, Structural)]
pub enum UninstallStep {
    GeminiMd(bool),
    Settings(bool),
}

/// The reminder the hook prints.
pub open spec fn hint_line() -> Seq<char> {
    "sigil in this repo \u{2014} for structural questions reach for sigil FIRST: `sigil where X` (find definition), `sigil context X` (full bundle), `sigil callers/callees X`, `sigil symbols F --depth 1`. Empty result prints `Did you mean?` on stderr \u{2014} retry with suggestion before grep."@
}

/// The hook's shell command.
pub open spec fn hook_command() -> Seq<char> {
    "echo '"@ + shell_escaped(hint_line()) + "' # sigil-hint"@
}

/// sigil's `BeforeTool` entry.
pub open spec fn hook_entry() -> JsonV {
    JsonV::Object(seq![("matcher"@, JsonV::Str("ReadFile|ReadManyFiles|Grep|Glob"@)), ("command"@, JsonV::Str(hook_command()))])
}

fn hook_entry_json() -> (r: Json)
    ensures
        jv(r) == hook_entry(),
{
    let esc = shell_escape_single_quoted(
        "sigil in this repo \u{2014} for structural questions reach for sigil FIRST: `sigil where X` (find definition), `sigil context X` (full bundle), `sigil callers/callees X`, `sigil symbols F --depth 1`. Empty result prints `Did you mean?` on stderr \u{2014} retry with suggestion before grep.",
    );
    let mut cmd: Vec<char> = Vec::new();
    push_str(&mut cmd, "echo '");
    push_str(&mut cmd, esc.as_str());
    push_str(&mut cmd, "' # sigil-hint");
    let cmd = string_from(&cmd);
    json_object2("matcher", json_str("ReadFile|ReadManyFiles|Grep|Glob"), "command", json_str(cmd.as_str()))
}

/// The settings with sigil's hook installed.
pub fn upsert_gemini_hook(settings: Json) -> (r: Result<Json, SettingsError>)
    ensures
        result_view(r) == hooks_upserted(jv(settings), Some("hooks"@), "BeforeTool"@, false, hook_entry()),
{
    upsert_hooks(settings, Some("hooks"), "BeforeTool", false, hook_entry_json())
}

/// The settings with sigil's hook removed.
pub fn remove_gemini_hook(settings: Json) -> (r: (bool, JsonAction))
    ensures
        json_action_view(r.1) == hooks_removed(jv(settings), Some("hooks"@), "BeforeTool"@, false),
        r.0 == (json_action_view(r.1) is Some),
{
    remove_hooks(settings, Some("hooks"), "BeforeTool", false)
}

/// What installing for Gemini writes.
#[derive(Debug)]
pub struct InstallPlan {
    pub gemini_md: (UpsertResult, String),
    pub settings: Json,
}

/// Install for Gemini, given the current `GEMINI.md` (`None`: absent) and
/// settings (an empty object when absent or blank).
pub fn install(gemini_md: Option<&str>, settings: Json) -> (r: Result<InstallPlan, SettingsError>)
    ensures
        match r {
            Ok(p) => {
                &&& p.gemini_md.1@ == upserted_text(opt_chars_str(gemini_md), capability_text())
                &&& p.gemini_md.0 == upsert_outcome(opt_chars_str(gemini_md), capability_text())
                &&& hooks_upserted(jv(settings), Some("hooks"@), "BeforeTool"@, false, hook_entry()) == Ok::<JsonV, SettingsError>(jv(p.settings))
            },
            Err(e) => hooks_upserted(jv(settings), Some("hooks"@), "BeforeTool"@, false, hook_entry()) == Err::<JsonV, SettingsError>(e),
        },
{
    let block = capability_block();
    let md = upsert_marker_block(gemini_md, block.as_str());
    match upsert_gemini_hook(settings) {
        Ok(s) => Ok(InstallPlan { gemini_md: md, settings: s }),
        Err(e) => Err(e),
    }
}

/// What uninstalling from Gemini does.
#[derive(Debug)]
pub struct UninstallPlan {
    pub gemini_md: (bool, FileAction),
    pub settings: (bool, JsonAction),
}

/// Uninstall from Gemini, given the current `GEMINI.md` and settings
/// (`None`: absent or blank, left alone).
pub fn uninstall(gemini_md: Option<&str>, settings: Option<Json>) -> (r: UninstallPlan)
    ensures
        action_view(r.gemini_md.1) == removal_action(opt_chars_str(gemini_md)),
        r.gemini_md.0 == (action_view(r.gemini_md.1) is Some),
        match settings {
            Some(s) => json_action_view(r.settings.1) == hooks_removed(jv(s), Some("hooks"@), "BeforeTool"@, false),
            None => json_action_view(r.settings.1) is None,
        },
        r.settings.0 == (json_action_view(r.settings.1) is Some),
{
    let md = remove_marker_block(gemini_md);
    let st = match settings {
        Some(s) => remove_gemini_hook(s),
        None => (false, JsonAction::Keep),
    };
    UninstallPlan { gemini_md: md, settings: st }
}

/// sigil's entry is recognised as sigil's, so the hook laws of
/// `settings` apply to it.
pub proof fn lemma_hook_entry_is_sigil()
    ensures
        crate::install::settings::is_sigil_entry(hook_entry(), false),
{
    reveal_strlit("matcher");
    reveal_strlit("command");
    assert("matcher"@[0] != "command"@[0]);
    let efs = hook_entry()->Object_0;
    crate::install::json::lemma_field_index_at(efs, "command"@, 1);
    crate::install::settings::lemma_tagged_command("echo '"@ + shell_escaped(hint_line()));
}

} // verus!
