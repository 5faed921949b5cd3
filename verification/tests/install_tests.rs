use sigil::install::githook::{self, HookResult};
use sigil::install::json::Json;
use sigil::install::settings::{JsonAction, SettingsError};
use sigil::install::{aider, capability_block, claude, codex, copilot, cursor, gemini, shell_escape_single_quoted, FileAction, UpsertResult};

fn s(x: &str) -> Json {
    Json::Str(x.to_string())
}

fn obj(fields: Vec<(&str, Json)>) -> Json {
    Json::Object(fields.into_iter().map(|(k, v)| (k.to_string(), v)).collect())
}

fn get<'a>(j: &'a Json, k: &str) -> Option<&'a Json> {
    match j {
        Json::Object(fs) => fs.iter().find(|(key, _)| key == k).map(|(_, v)| v),
        _ => None,
    }
}

fn arr_len(j: Option<&Json>) -> usize {
    match j {
        Some(Json::Array(v)) => v.len(),
        _ => usize::MAX,
    }
}

#[test]
fn escape_single_quotes_handles_shell_safety() {
    assert_eq!(shell_escape_single_quoted("hello"), "hello");
    assert_eq!(shell_escape_single_quoted("it's"), "it'\\''s");
}

#[test]
fn install_writes_agents_md() {
    let (r, text) = aider::install(None);
    assert_eq!(r, UpsertResult::Created);
    assert!(text.contains("sigil map"));
}

#[test]
fn install_preserves_existing_agents_md() {
    let (r, text) = aider::install(Some("# AGENTS\n\nuser rules.\n"));
    assert_eq!(r, UpsertResult::Updated);
    assert!(text.contains("user rules"));
    assert!(text.contains("sigil map"));
    assert!(text.starts_with("# AGENTS\n\nuser rules.\n"));
}

#[test]
fn uninstall_roundtrips_cleanly() {
    let (_, text) = aider::install(Some("# AGENTS\n\npre-existing.\n"));
    let (removed, action) = aider::uninstall(Some(&text));
    assert!(removed);
    match action {
        FileAction::Write(rest) => {
            assert!(rest.contains("pre-existing"));
            assert!(!rest.contains("sigil map"));
            assert_eq!(rest, "# AGENTS\n\npre-existing.\n");
        }
        other => panic!("unexpected {other:?}"),
    }
}

#[test]
fn marker_block_reinstall_is_unchanged() {
    let (_, once) = aider::install(Some("notes"));
    let (r, twice) = aider::install(Some(&once));
    assert_eq!(r, UpsertResult::Unchanged);
    assert_eq!(once, twice);
    let (_, fresh) = aider::install(None);
    assert_eq!(aider::uninstall(Some(&fresh)), (true, FileAction::Delete));
    assert_eq!(aider::uninstall(Some("no block here")), (false, FileAction::Keep));
    assert_eq!(aider::uninstall(None), (false, FileAction::Keep));
}

#[test]
fn marker_block_replaced_in_place() {
    let (_, once) = aider::install(Some("top\n"));
    let edited = once.replace("sigil map", "OLD TEXT") + "tail\n";
    let (r, again) = aider::install(Some(&edited));
    assert_eq!(r, UpsertResult::Updated);
    assert!(again.starts_with("top\n"));
    assert!(again.ends_with("tail\n"));
    assert!(again.contains(&capability_block()));
    assert!(!again.contains("OLD TEXT"));
    let (r2, third) = aider::install(Some(&again));
    assert_eq!(r2, UpsertResult::Unchanged);
    assert_eq!(third, again);
}

#[test]
fn stray_begin_marker_is_not_a_block() {
    let stray = "<!-- sigil:begin -->\n";
    let (r, once) = aider::install(Some(stray));
    assert_eq!(r, UpsertResult::Updated);
    assert!(once.starts_with(stray));
    let (r2, twice) = aider::install(Some(&once));
    assert_eq!(r2, UpsertResult::Updated);
    assert_ne!(once, twice);
}

#[test]
fn claude_install_into_fresh_settings() {
    let plan = claude::install(None, Json::Object(vec![])).unwrap();
    assert_eq!(plan.claude_md.0, UpsertResult::Created);
    let hooks = get(&plan.settings, "hooks").unwrap();
    let pre = get(hooks, "PreToolUse");
    assert_eq!(arr_len(pre), 1);
}

#[test]
fn claude_install_preserves_existing_settings_and_is_idempotent() {
    let user_hook = obj(vec![
        ("matcher", s("Write")),
        ("hooks", Json::Array(vec![obj(vec![("type", s("command")), ("command", s("echo user-hook"))])])),
    ]);
    let settings = obj(vec![("theme", s("dark")), ("hooks", obj(vec![("PreToolUse", Json::Array(vec![user_hook]))]))]);
    let plan = claude::install(None, settings).unwrap();
    assert!(matches!(get(&plan.settings, "theme"), Some(Json::Str(t)) if t == "dark"));
    assert_eq!(arr_len(get(get(&plan.settings, "hooks").unwrap(), "PreToolUse")), 2);
    let again = claude::upsert_claude_hook(plan.settings).unwrap();
    assert_eq!(arr_len(get(get(&again, "hooks").unwrap(), "PreToolUse")), 2);
    let (removed, action) = claude::remove_claude_hook(again);
    assert!(removed);
    match action {
        JsonAction::Write(doc) => {
            let pre = get(get(&doc, "hooks").unwrap(), "PreToolUse");
            assert_eq!(arr_len(pre), 1);
            assert!(matches!(get(&doc, "theme"), Some(Json::Str(t)) if t == "dark"));
        }
        other => panic!("unexpected {other:?}"),
    }
}

#[test]
fn claude_uninstall_deletes_emptied_settings_and_noop_without_install() {
    let plan = claude::install(None, Json::Object(vec![])).unwrap();
    let (removed, action) = claude::remove_claude_hook(plan.settings);
    assert!(removed);
    assert!(matches!(action, JsonAction::Delete));
    let un = claude::uninstall(None, None);
    assert_eq!(un.claude_md, (false, FileAction::Keep));
    assert!(!un.settings.0);
    assert!(claude::InstallStep::ClaudeMd(UpsertResult::Created) != claude::InstallStep::Settings(UpsertResult::Created));
    assert_eq!(claude::UninstallStep::Settings(true), claude::UninstallStep::Settings(true));
}

#[test]
fn settings_errors_for_wrong_shapes() {
    assert_eq!(claude::upsert_claude_hook(Json::Array(vec![])).err(), Some(SettingsError::RootNotObject));
    assert_eq!(claude::upsert_claude_hook(obj(vec![("hooks", s("x"))])).err(), Some(SettingsError::HooksNotObject));
    assert_eq!(
        claude::upsert_claude_hook(obj(vec![("hooks", obj(vec![("PreToolUse", Json::Null)]))])).err(),
        Some(SettingsError::ListNotArray)
    );
}

#[test]
fn codex_install_and_uninstall() {
    let plan = codex::install(Some("# AGENTS\n\nexisting.\n"), Json::Object(vec![])).unwrap();
    assert_eq!(arr_len(get(&plan.hooks, "PreToolUse")), 1);
    let un = codex::uninstall(Some(&plan.agents_md.1), Some(plan.hooks));
    assert!(un.agents_md.0 && un.hooks.0);
    assert!(matches!(un.hooks.1, JsonAction::Delete));
    match un.agents_md.1 {
        FileAction::Write(t) => assert!(t.contains("existing.") && !t.contains("sigil map")),
        other => panic!("unexpected {other:?}"),
    }
    assert_eq!(codex::InstallStep::AgentsMd(UpsertResult::Updated), codex::InstallStep::AgentsMd(UpsertResult::Updated));
    assert!(codex::UninstallStep::AgentsMd(false) != codex::UninstallStep::Hooks(false));
}

#[test]
fn gemini_uninstall_preserves_sibling_user_hooks() {
    let user = obj(vec![("matcher", s("Write")), ("command", s("echo user"))]);
    let settings = obj(vec![("hooks", obj(vec![("BeforeTool", Json::Array(vec![user]))]))]);
    let plan = gemini::install(None, settings).unwrap();
    assert_eq!(arr_len(get(get(&plan.settings, "hooks").unwrap(), "BeforeTool")), 2);
    let (removed, action) = gemini::remove_gemini_hook(plan.settings);
    assert!(removed);
    match action {
        JsonAction::Write(doc) => assert_eq!(arr_len(get(get(&doc, "hooks").unwrap(), "BeforeTool")), 1),
        other => panic!("unexpected {other:?}"),
    }
    assert_eq!(gemini::InstallStep::GeminiMd(UpsertResult::Unchanged), gemini::InstallStep::GeminiMd(UpsertResult::Unchanged));
    assert!(gemini::UninstallStep::GeminiMd(true) != gemini::UninstallStep::Settings(true));
}

#[test]
fn githook_install_creates_both_hooks() {
    let plans = githook::install(None, None);
    assert_eq!(plans.len(), 2);
    assert_eq!(plans[0].step.name, "post-commit");
    assert_eq!(plans[1].step.name, "post-checkout");
    for p in &plans {
        assert_eq!(p.step.result, HookResult::Created);
        assert!(p.write.as_ref().unwrap().starts_with("#!/bin/sh\n# sigil:post-c"));
    }
}

#[test]
fn githook_install_preserves_user_hook_and_is_idempotent() {
    let user = "#!/bin/sh\n# user script\necho hello-from-user\n";
    let plans = githook::install(Some(user), None);
    let script = plans[0].write.clone().unwrap();
    assert!(script.contains("hello-from-user"));
    assert!(script.contains("sigil index --no-rank"));
    let again = githook::install(Some(&script), Some(plans[1].write.as_ref().unwrap()));
    for p in &again {
        assert_eq!(p.step.result, HookResult::Unchanged);
        assert!(p.write.is_none());
    }
}

#[test]
fn githook_uninstall_leaves_user_hook_and_deletes_sigil_only_hooks() {
    let user = "#!/bin/sh\n# user script\necho hello-from-user\n";
    let plans = githook::install(Some(user), None);
    let removals = githook::uninstall(Some(plans[0].write.as_ref().unwrap()), Some(plans[1].write.as_ref().unwrap()));
    assert_eq!(removals[0].step.result, HookResult::Removed);
    match &removals[0].action {
        FileAction::Write(t) => {
            assert_eq!(t, user);
        }
        other => panic!("unexpected {other:?}"),
    }
    assert_eq!(removals[1].action, FileAction::Delete);
    let none = githook::uninstall(None, Some("#!/bin/sh\necho x\n"));
    assert_eq!(none[0].step.result, HookResult::NotPresent);
    assert_eq!(none[1].step.result, HookResult::NotPresent);
    assert_eq!(githook::sentinel_for("post-checkout"), "# sigil:post-checkout");
    assert_eq!(githook::sentinel_for("other"), "# sigil:post-commit");
}

#[test]
fn copilot_skill_install_outcomes() {
    let (created, content) = copilot::install(None);
    assert_eq!(created, sigil::install::UpsertResult::Created);
    assert!(content.starts_with("# sigil skill\n\n"));
    assert!(content.contains("sigil map"));
    assert!(content.ends_with("\n"));
    let (again, _) = copilot::install(Some(&content));
    assert_eq!(again, sigil::install::UpsertResult::Unchanged);
    let (updated, _) = copilot::install(Some("old skill"));
    assert_eq!(updated, sigil::install::UpsertResult::Updated);
}

#[test]
fn cursor_rule_install_outcomes() {
    let (created, content) = cursor::install(None);
    assert_eq!(created, sigil::install::UpsertResult::Created);
    assert!(content.starts_with("---"));
    assert!(content.contains("alwaysApply: true"));
    assert!(content.contains("sigil map"));
    let (again, _) = cursor::install(Some(&content));
    assert_eq!(again, sigil::install::UpsertResult::Unchanged);
}

#[test]
fn githook_reinstall_over_a_moved_block_is_unchanged() {
    let first = githook::install(Some("#!/bin/sh\necho before\n"), None);
    let script = first[0].write.clone().unwrap();
    // The user adds lines after sigil's part and glues text to its start.
    let edited = format!("echo glued{}echo after\n", script.replace("#!/bin/sh\necho before\n", ""));
    let second = githook::install(Some(&edited), None);
    assert_eq!(second[0].step.result, HookResult::Unchanged);
    assert!(second[0].write.is_none());
    // Over a script without sigil's part an install always writes.
    let third = githook::install(Some("echo only"), None);
    assert_eq!(third[0].step.result, HookResult::Updated);
    assert!(third[0].write.as_ref().unwrap().starts_with("echo only\n# sigil:post-commit\n"));
    // A sentinel without its closing line gets a second part appended.
    let broken = githook::install(Some("#!/bin/sh\n# sigil:post-commit\n"), None);
    assert_eq!(broken[0].step.result, HookResult::Updated);
    let again = githook::install(Some(broken[0].write.as_ref().unwrap()), None);
    assert_eq!(again[0].step.result, HookResult::Updated);
}
