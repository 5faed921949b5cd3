//! Installer for a coding agent with a markdown instructions file and a
//! JSON settings file: the capability block in the former, and a
//! `PreToolUse` hook in the latter that prints a one-line reminder of
//! sigil's commands before `Grep` and `Glob` run.

use vstd::prelude::*;
use crate::fmt::push_str;
use crate::install::json::{json_array, json_object2, json_str, items_view, jv, Json, JsonV};
use crate::install::settings::{
    hooks_removed, hooks_upserted, json_action_view, remove_hooks, result_view, upsert_hooks,
    JsonAction, SettingsError,
};
use crate::install::{
    capability_block, capability_text, remove_marker_block, shell_escape_single_quoted, shell_escaped,
    upsert_marker_block, upsert_outcome, upserted_text, UpsertResult, action_view, removal_action,
    FileAction,
};
use crate::text::string_from;

verus! {

broadcast use vstd::string::group_string_axioms;

/// What an install did, per artifact.
#[derive(Debug, Clone, Copy, PartialEq, Eq, Structural)]
pub enum InstallStep {
    ClaudeMd(UpsertResult),
    Settings(UpsertResult),
}

/// What an uninstall removed, per artifact.
#[derive(Debug, Clone, Copy, PartialEq, Eq, Structural)]
pub enum UninstallStep {
    ClaudeMd(bool),
    Settings(bool),
}

/// The reminder the hook prints.
pub open spec fn hint_line() -> Seq<char> {
    "sigil available in this repo: use `sigil map` for orientation, `sigil context <symbol>` for a focused bundle, `sigil callers/callees` for exact lookups. See .sigil/SIGIL_MAP.md if present."@
}

/// The hook's shell command: echo the quoted reminder, tagged.
pub open spec fn hook_command() -> Seq<char> {
    "echo '"@ + shell_escaped(hint_line()) + "' # sigil-hint"@
}

/// sigil's `PreToolUse` entry.
pub open spec fn hook_entry() -> JsonV {
    JsonV::Object(
        seq![
            ("matcher"@, JsonV::Str("Grep|Glob"@)),
            ("hooks"@, JsonV::Array(seq![JsonV::Object(seq![("type"@, JsonV::Str("command"@)), ("command"@, JsonV::Str(hook_command()))])])),
        ],
    )
}

fn hook_entry_json() -> (r: Json)
    ensures
        jv(r) == hook_entry(),
{
    let esc = shell_escape_single_quoted(
        "sigil available in this repo: use `sigil map` for orientation, `sigil context <symbol>` for a focused bundle, `sigil callers/callees` for exact lookups. See .sigil/SIGIL_MAP.md if present.",
    );
    let mut cmd: Vec<char> = Vec::new();
    push_str(&mut cmd, "echo '");
    push_str(&mut cmd, esc.as_str());
    push_str(&mut cmd, "' # sigil-hint");
    let cmd = string_from(&cmd);
    let inner = json_object2("type", json_str("command"), "command", json_str(cmd.as_str()));
    let ghost iv = jv(inner);
    let mut hs: Vec<Json> = Vec::new();
    hs.push(inner);
    assert(items_view(hs@) =~= seq![iv]);
    json_object2("matcher", json_str("Grep|Glob"), "hooks", json_array(hs))
}

/// The settings with sigil's hook installed (see `hooks_upserted`).
pub fn upsert_claude_hook(settings: Json) -> (r: Result<Json, SettingsError>)
    ensures
        result_view(r) == hooks_upserted(jv(settings), Some("hooks"@), "PreToolUse"@, true, hook_entry()),
{
    upsert_hooks(settings, Some("hooks"), "PreToolUse", true, hook_entry_json())
}

/// The settings with sigil's hook removed (see `hooks_removed`).
pub fn remove_claude_hook(settings: Json) -> (r: (bool, JsonAction))
    ensures
        json_action_view(r.1) == hooks_removed(jv(settings), Some("hooks"@), "PreToolUse"@, true),
        r.0 == (json_action_view(r.1) is Some),
{
    remove_hooks(settings, Some("hooks"), "PreToolUse", true)
}

/// What the install writes: the instructions file (with the outcome)
/// and the settings document to store.
#[derive(Debug)]
pub struct InstallPlan {
    pub claude_md: (UpsertResult, String),
    pub settings: Json,
}

/// Install, given the current instructions file (`None`: absent)
/// and settings (an empty object when the file is absent or blank).
pub fn install(claude_md: Option<&str>, settings: Json) -> (r: Result<InstallPlan, SettingsError>)
    ensures
        match r {
            Ok(p) => {
                &&& p.claude_md.1@ == upserted_text(crate::install::githook::opt_chars_str(claude_md), capability_text())
                &&& p.claude_md.0 == upsert_outcome(crate::install::githook::opt_chars_str(claude_md), capability_text())
                &&& hooks_upserted(jv(settings), Some("hooks"@), "PreToolUse"@, true, hook_entry()) == Ok::<JsonV, SettingsError>(jv(p.settings))
            },
            Err(e) => hooks_upserted(jv(settings), Some("hooks"@), "PreToolUse"@, true, hook_entry()) == Err::<JsonV, SettingsError>(e),
        },
{
    let block = capability_block();
    let md = upsert_marker_block(claude_md, block.as_str());
    match upsert_claude_hook(settings) {
        Ok(s) => Ok(InstallPlan { claude_md: md, settings: s }),
        Err(e) => Err(e),
    }
}

/// What the uninstall does: to the instructions file and to the
/// settings file, each with whether sigil's part was there.
#[derive(Debug)]
pub struct UninstallPlan {
    pub claude_md: (bool, FileAction),
    pub settings: (bool, JsonAction),
}

/// Uninstall, given the current instructions file and settings
/// (`None`: absent or blank, left alone).
pub fn uninstall(claude_md: Option<&str>, settings: Option<Json>) -> (r: UninstallPlan)
    ensures
        action_view(r.claude_md.1) == removal_action(crate::install::githook::opt_chars_str(claude_md)),
        r.claude_md.0 == (action_view(r.claude_md.1) is Some),
        match settings {
            Some(s) => json_action_view(r.settings.1) == hooks_removed(jv(s), Some("hooks"@), "PreToolUse"@, true),
            None => json_action_view(r.settings.1) is None,
        },
        r.settings.0 == (json_action_view(r.settings.1) is Some),
{
    let md = remove_marker_block(claude_md);
    let st = match settings {
        Some(s) => remove_claude_hook(s),
        None => (false, JsonAction::Keep),
    };
    UninstallPlan { claude_md: md, settings: st }
}

/// sigil's entry is recognised as sigil's, so the hook laws of
/// `settings` apply to it.
pub proof fn lemma_hook_entry_is_sigil()
    ensures
        crate::install::settings::is_sigil_entry(hook_entry(), true),
{
    reveal_strlit("matcher");
    reveal_strlit("hooks");
    reveal_strlit("type");
    reveal_strlit("command");
    assert("matcher"@[0] != "hooks"@[0]);
    assert("type"@[0] != "command"@[0]);
    let inner = JsonV::Object(seq![("type"@, JsonV::Str("command"@)), ("command"@, JsonV::Str(hook_command()))]);
    let e = hook_entry();
    let efs = e->Object_0;
    crate::install::json::lemma_field_index_at(efs, "hooks"@, 1);
    let ifs = inner->Object_0;
    crate::install::json::lemma_field_index_at(ifs, "command"@, 1);
    crate::install::settings::lemma_tagged_command("echo '"@ + shell_escaped(hint_line()));
    let hs = seq![inner];
    assert(crate::install::json::get(hs[0], "command"@) == Some(JsonV::Str(hook_command())));
}

} // verus!
