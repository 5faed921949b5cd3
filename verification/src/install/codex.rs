//! Codex installer: the capability block in `AGENTS.md`, and a
//! `PreToolUse` hook in `.codex/hooks.json` that prints sigil's reminder
//! before `Bash` runs.

use vstd::prelude::*;
use crate::fmt::push_str;
use crate::install::claude::hint_line;
use crate::install::githook::opt_chars_str;
use crate::install::json::{json_object2, json_str, jv, Json, JsonV};
use crate::install::settings::{
    hooks_removed, hooks_upserted, json_action_view, remove_hooks, result_view, upsert_hooks,
    JsonAction, SettingsError,
};
use crate::install::{
    action_view, capability_block, capability_text, remove_marker_block, removal_action,
    shell_escape_single_quoted, shell_escaped, upsert_marker_block, upsert_outcome, upserted_text,
    FileAction, UpsertResult,
};
use crate::text::string_from;

verus! {

broadcast use vstd::string::group_string_axioms;

/// What an install did, per artifact.
#[derive(Debug, Clone, Copy, PartialEq, Eq, Structural)]
pub enum InstallStep {
    AgentsMd(UpsertResult),
    Hooks(UpsertResult),
}

/// What an uninstall removed, per artifact.
#[derive(Debug, Clone, Copy, PartialEq, Eq, Structural)]
pub enum UninstallStep {
    AgentsMd(bool),
    Hooks(bool),
}

/// The hook's shell command (the same reminder as the other `PreToolUse`
/// installer's).
pub open spec fn hook_command() -> Seq<char> {
    "echo '"@ + shell_escaped(hint_line()) + "' # sigil-hint"@
}

/// sigil's `PreToolUse` entry.
pub open spec fn hook_entry() -> JsonV {
    JsonV::Object(seq![("matcher"@, JsonV::Str("Bash"@)), ("command"@, JsonV::Str(hook_command()))])
}

fn hook_entry_json() -> (r: Json)
    ensures
        jv(r) == hook_entry(),
{
    let esc = shell_escape_single_quoted(
        "sigil available in this repo: use `sigil map` for orientation, `sigil context <symbol>` for a focused bundle, `sigil callers/callees` for exact lookups. See .sigil/SIGIL_MAP.md if present.",
    );
    let mut cmd: Vec<char> = Vec::new();
    push_str(&mut cmd, "echo '");
    push_str(&mut cmd, esc.as_str());
    push_str(&mut cmd, "' # sigil-hint");
    let cmd = string_from(&cmd);
    json_object2("matcher", json_str("Bash"), "command", json_str(cmd.as_str()))
}

/// The hooks document with sigil's entry installed.
pub fn upsert_codex_hook(hooks: Json) -> (r: Result<Json, SettingsError>)
    ensures
        result_view(r) == hooks_upserted(jv(hooks), None, "PreToolUse"@, false, hook_entry()),
{
    upsert_hooks(hooks, None, "PreToolUse", false, hook_entry_json())
}

/// The hooks document with sigil's entries removed.
pub fn remove_codex_hook(hooks: Json) -> (r: (bool, JsonAction))
    ensures
        json_action_view(r.1) == hooks_removed(jv(hooks), None, "PreToolUse"@, false),
        r.0 == (json_action_view(r.1) is Some),
{
    remove_hooks(hooks, None, "PreToolUse", false)
}

/// What installing for Codex writes.
#[derive(Debug)]
pub struct InstallPlan {
    pub agents_md: (UpsertResult, String),
    pub hooks: Json,
}

/// Install for Codex, given the current `AGENTS.md` (`None`: absent) and
/// hooks document (an empty object when absent or blank).
pub fn install(agents_md: Option<&str>, hooks: Json) -> (r: Result<InstallPlan, SettingsError>)
    ensures
        match r {
            Ok(p) => {
                &&& p.agents_md.1@ == upserted_text(opt_chars_str(agents_md), capability_text())
                &&& p.agents_md.0 == upsert_outcome(opt_chars_str(agents_md), capability_text())
                &&& hooks_upserted(jv(hooks), None, "PreToolUse"@, false, hook_entry()) == Ok::<JsonV, SettingsError>(jv(p.hooks))
            },
            Err(e) => hooks_upserted(jv(hooks), None, "PreToolUse"@, false, hook_entry()) == Err::<JsonV, SettingsError>(e),
        },
{
    let block = capability_block();
    let md = upsert_marker_block(agents_md, block.as_str());
    match upsert_codex_hook(hooks) {
        Ok(h) => Ok(InstallPlan { agents_md: md, hooks: h }),
        Err(e) => Err(e),
    }
}

/// What uninstalling from Codex does.
#[derive(Debug)]
pub struct UninstallPlan {
    pub agents_md: (bool, FileAction),
    pub hooks: (bool, JsonAction),
}

/// Uninstall from Codex, given the current `AGENTS.md` and hooks document
/// (`None`: absent or blank, left alone).
pub fn uninstall(agents_md: Option<&str>, hooks: Option<Json>) -> (r: UninstallPlan)
    ensures
        action_view(r.agents_md.1) == removal_action(opt_chars_str(agents_md)),
        r.agents_md.0 == (action_view(r.agents_md.1) is Some),
        match hooks {
            Some(h) => json_action_view(r.hooks.1) == hooks_removed(jv(h), None, "PreToolUse"@, false),
            None => json_action_view(r.hooks.1) is None,
        },
        r.hooks.0 == (json_action_view(r.hooks.1) is Some),
{
    let md = remove_marker_block(agents_md);
    let h = match hooks {
        Some(h) => remove_codex_hook(h),
        None => (false, JsonAction::Keep),
    };
    UninstallPlan { agents_md: md, hooks: h }
}

/// sigil's entry is recognised as sigil's, so the hook laws of
/// `settings` apply to it.
pub proof fn lemma_hook_entry_is_sigil()
    ensures
        crate::install::settings::is_sigil_entry(hook_entry(), false),
{
    reveal_strlit("matcher");
    reveal_strlit("command");
    assert("matcher"@[0] != "command"@[0]);
    let efs = hook_entry()->Object_0;
    crate::install::json::lemma_field_index_at(efs, "command"@, 1);
    crate::install::settings::lemma_tagged_command("echo '"@ + shell_escaped(hint_line()));
}

} // verus!
