use serde_json::Value;

use docli_cli::agents::Vendor;
use docli_cli::hooks::command_for;
use docli_cli::hooks::consent_summary;
use docli_cli::hooks::effectively_ours;
use docli_cli::hooks::entry_for;
use docli_cli::hooks::inner_command;
use docli_cli::hooks::install;
use docli_cli::hooks::is_ours;
use docli_cli::hooks::merge;
use docli_cli::hooks::remove;
use docli_cli::hooks::snippet;
use docli_cli::hooks::status;
use docli_cli::hooks::ConfigRead;
use docli_cli::hooks::Event;
use docli_cli::hooks::HookAgent;
use docli_cli::hooks::HookOutcome;
use docli_cli::hooks::RemoveOutcome;
use docli_cli::json::Json;
use docli_cli::report::Notice;

const EVENTS: [Event; 2] = [Event::PreToolUse, Event::SessionStart];

fn vendor() -> Vendor {
    Vendor {
        key: "claude_code",
        name: "Agent Code",
        display: "Agent Code",
        dir: ".claude_code",
        skill_dir: ".claude_code/skills/docli-mirror",
        settings: ".claude_code/settings.json",
        instructions: "AGENT.md",
    }
}

fn first() -> HookAgent {
    HookAgent::ClaudeCode(vendor())
}

fn parsed(text: &str) -> Value {
    serde_json::from_str(text).unwrap()
}

fn json(v: &Value) -> Json {
    match v {
        Value::Null => Json::Null,
        Value::Bool(b) => Json::Bool(*b),
        Value::Number(n) => match n.as_u64() {
            Some(u) => Json::Uint(u),
            None => Json::OtherNumber(n.to_string()),
        },
        Value::String(s) => Json::Text(s.clone()),
        Value::Array(a) => Json::Array(a.iter().map(json).collect()),
        Value::Object(o) => Json::Object(o.iter().map(|(k, x)| (k.clone(), json(x))).collect()),
    }
}

fn fresh(agent: HookAgent) -> String {
    match merge(agent, None) {
        HookOutcome::Write(out) => out,
        other => panic!("a fresh file must write: {other:?}"),
    }
}

fn merged(agent: HookAgent, existing: &str) -> String {
    match merge(agent, Some(existing)) {
        HookOutcome::Write(out) => out,
        other => panic!("must merge: {other:?}"),
    }
}

fn removed(agent: HookAgent, existing: &str) -> String {
    match remove(agent, existing) {
        RemoveOutcome::Removed(back) => back,
        other => panic!("something of ours to remove: {other:?}"),
    }
}

fn count(v: &Value, event: &str) -> usize {
    v["hooks"][event].as_array().unwrap().len()
}

fn is_pre_tool_use_ours(v: &Value) -> bool {
    is_ours(&json(&v["hooks"]["PreToolUse"][0]), first(), Event::PreToolUse)
}

#[test]
fn a_fresh_file_gets_both_events_with_the_documented_shape() {
    let v = parsed(&fresh(first()));
    let pre = &v["hooks"]["PreToolUse"][0];
    assert_eq!(pre["matcher"], "Write|Edit|MultiEdit|NotebookEdit");
    assert_eq!(pre["hooks"][0]["type"], "command");
    assert!(pre["hooks"][0]["command"]
        .as_str()
        .unwrap()
        .contains("docli guard --agent claude_code"));
    let start = &v["hooks"]["SessionStart"][0];
    assert_eq!(start["matcher"], "startup|resume");
    assert!(start["hooks"][0]["command"]
        .as_str()
        .unwrap()
        .contains("docli sync --check --agent claude_code"));
}

#[test]
fn the_codex_matcher_names_the_edit_tool_and_not_bash() {
    let v = parsed(&fresh(HookAgent::Codex));
    let m = v["hooks"]["PreToolUse"][0]["matcher"].as_str().unwrap();
    assert_eq!(m, "apply_patch|Edit|Write");
    assert!(!m.contains("Bash"), "{m}");
}

#[test]
fn the_entry_is_the_same_on_every_platform_that_reads_it() {
    for agent in HookAgent::all(vendor()) {
        for event in EVENTS {
            let cmd = command_for(agent, event);
            assert!(cmd.starts_with("if command -v docli"), "{cmd}");
            assert!(!cmd.contains("where docli"), "{cmd}");
            assert!(!cmd.contains("|| exit"), "{cmd}");
        }
    }
    let v = parsed(&fresh(HookAgent::Codex));
    let h = &v["hooks"]["PreToolUse"][0]["hooks"][0];
    assert!(h["commandWindows"]
        .as_str()
        .unwrap()
        .starts_with("where docli"));
    assert!(h.get("shell").is_none(), "Codex documents no shell field");

    let v = parsed(&fresh(first()));
    let h = &v["hooks"]["PreToolUse"][0]["hooks"][0];
    assert_eq!(h["shell"], "bash");
    assert!(h.get("commandWindows").is_none());
}

#[test]
fn a_users_own_hooks_survive_the_merge_and_the_removal() {
    let mine = r#"{
  "permissions": {"allow": ["Bash(ls:*)"]},
  "hooks": {
    "PreToolUse": [
      {"matcher": "Bash", "hooks": [{"type": "command", "command": "my-audit.sh"}]}
    ]
  }
}"#;
    let out = merged(first(), mine);
    let v = parsed(&out);
    assert!(is_pre_tool_use_ours(&v));
    assert_eq!(v["hooks"]["PreToolUse"][1]["matcher"], "Bash");
    assert_eq!(
        v["hooks"]["PreToolUse"][1]["hooks"][0]["command"],
        "my-audit.sh"
    );
    assert_eq!(v["permissions"]["allow"][0], "Bash(ls:*)");
    assert!(
        out.contains(r#"  "permissions": {"allow": ["Bash(ls:*)"]},"#),
        "the user's own text is untouched: {out}"
    );
    assert!(
        out.contains(
            r#"{"matcher": "Bash", "hooks": [{"type": "command", "command": "my-audit.sh"}]}"#
        ),
        "including inside the array we spliced into: {out}"
    );

    let back = removed(first(), &out);
    let v = parsed(&back);
    assert_eq!(count(&v, "PreToolUse"), 1);
    assert_eq!(v["hooks"]["PreToolUse"][0]["matcher"], "Bash");
    assert_eq!(count(&v, "SessionStart"), 0);
    assert_eq!(v["permissions"]["allow"][0], "Bash(ls:*)");
    assert!(
        back.contains(r#""permissions": {"allow": ["Bash(ls:*)"]},"#),
        "{back}"
    );
    assert!(back.contains("my-audit.sh"), "{back}");
    assert!(!back.contains("docli"), "{back}");

    let again = merged(first(), &back);
    let v = parsed(&again);
    assert_eq!(count(&v, "SessionStart"), 1);
    assert_eq!(count(&v, "PreToolUse"), 2);
}

/// What is not ours in a configuration: every member, with our elements taken out.
fn users_part(text: &str, agent: HookAgent) -> Value {
    let mut v = parsed(text);
    for e in EVENTS {
        if let Some(Value::Array(list)) = v.pointer_mut(&format!("/hooks/{}", e.name())) {
            list.retain(|x| !is_ours(&json(x), agent, e));
        }
        if let Some(Value::Object(hooks)) = v.get_mut("hooks") {
            if hooks.get(e.name()).is_some_and(|a| a == &Value::Array(Vec::new())) {
                hooks.remove(e.name());
            }
        }
    }
    if v.get("hooks").is_some_and(|h| h.as_object().is_some_and(|m| m.is_empty())) {
        v.as_object_mut().unwrap().remove("hooks");
    }
    v
}

#[test]
fn what_is_the_users_reads_back_as_it_was() {
    let ours = merged(HookAgent::Codex, "{\"hooks\": {\"PreToolUse\": [], \"SessionStart\": []}}");
    let v = parsed(&ours);
    let one = v["hooks"]["PreToolUse"][0].to_string();
    let start = v["hooks"]["SessionStart"][0].to_string();
    let shapes = [
        "{}".to_string(),
        " { } \n".to_string(),
        "{\"a\": 1.50, \"b\": [-1e3, {\"c\": \"x\\\"]}\\u00e9\"}], \"z\": null}".to_string(),
        "{\"hooks\":{}}".to_string(),
        "{\"hooks\" : { \"Stop\" : [ 1 , [ ] , { } ] } , \"x\" : { \"hooks\" : [ ] } }".to_string(),
        "{\"hooks\": {\"SessionStart\": [true, \"]\", {\"hooks\": []}], \"PreToolUse\": []}}".to_string(),
        format!("{{\"hooks\": {{\"PreToolUse\": [{one}, 7, {one} , {one}], \"SessionStart\": [[], {start}]}}}}"),
        format!("{{\"hooks\": {{\"SessionStart\": [{start},{start}, \"s\" ], \"PreToolUse\": [\n{one}\n]}}, \"n\": 2}}"),
        "{\"hooks\": {\"PreToolUse\": [{\"matcher\": \"X\", \"hooks\": [{\"command\": \"docli guard --agent codex --tool-input -\"}]}, 3]}}".to_string(),
    ];
    for shape in &shapes {
        let out = match merge(HookAgent::Codex, Some(shape)) {
            HookOutcome::Write(out) => out,
            HookOutcome::AlreadyInstalled => shape.clone(),
            other => panic!("{shape}: {other:?}"),
        };
        assert_eq!(users_part(&out, HookAgent::Codex), users_part(shape, HookAgent::Codex), "{out}");
        let v = parsed(&out);
        for e in EVENTS {
            let list = v["hooks"][e.name()].as_array().unwrap();
            let mine: Vec<&Value> =
                list.iter().filter(|x| is_ours(&json(x), HookAgent::Codex, e)).collect();
            assert_eq!(mine.len(), 1, "{out}");
        }
        assert_eq!(merge(HookAgent::Codex, Some(&out)), HookOutcome::AlreadyInstalled, "{out}");
        let back = removed(HookAgent::Codex, &out);
        for e in EVENTS {
            assert!(parsed(&back)["hooks"][e.name()].is_array(), "{back}");
        }
        assert_eq!(users_part(&back, HookAgent::Codex), users_part(shape, HookAgent::Codex), "{back}");
        assert_eq!(remove(HookAgent::Codex, &back), RemoveOutcome::NothingOfOurs);
    }
}

#[test]
fn merging_twice_is_a_no_op() {
    let once = fresh(HookAgent::Codex);
    assert_eq!(
        merge(HookAgent::Codex, Some(&once)),
        HookOutcome::AlreadyInstalled
    );
}

#[test]
fn an_older_shape_converges_instead_of_accumulating() {
    let stale = r#"{"hooks": {"PreToolUse": [{"matcher": "Write", "hooks": [{"type": "command", "command": "docli guard --agent claude_code --tool-input -"}]}]}}"#;
    let out = merged(first(), stale);
    let v = parsed(&out);
    let arr = v["hooks"]["PreToolUse"].as_array().unwrap();
    assert_eq!(arr.len(), 1, "converged, not accumulated: {out}");
    assert_eq!(arr[0]["matcher"], "Write|Edit|MultiEdit|NotebookEdit");

    let theirs = r#"{"hooks": {"PreToolUse": [{"matcher": "Write", "hooks": [{"type": "command", "command": "printf 'docli guard --agent ' >> audit.log"}]}]}}"#;
    let out = merged(first(), theirs);
    let v = parsed(&out);
    assert_eq!(
        count(&v, "PreToolUse"),
        2,
        "theirs survives beside ours: {out}"
    );
    assert!(out.contains("audit.log"), "{out}");
}

#[test]
fn more_than_one_of_ours_converges_to_exactly_one() {
    let dupes = r#"{"hooks": {"PreToolUse": [
            {"matcher": "Write", "hooks": [{"type": "command", "command": "docli guard --agent claude_code --tool-input -"}]},
            {"matcher": "Bash", "hooks": [{"type": "command", "command": "keep-me.sh"}]},
            {"matcher": "Edit", "hooks": [{"type": "command", "command": "docli guard --agent claude_code --tool-input -"}]}
        ]}}"#;
    let out = merged(first(), dupes);
    let v = parsed(&out);
    let arr = v["hooks"]["PreToolUse"].as_array().unwrap();
    assert_eq!(arr.len(), 2, "one of ours + the user's: {out}");
    assert!(is_ours(&json(&arr[0]), first(), Event::PreToolUse));
    assert_eq!(arr[1]["hooks"][0]["command"], "keep-me.sh");
    assert_eq!(merge(first(), Some(&out)), HookOutcome::AlreadyInstalled);
}

#[test]
fn we_write_only_documented_fields_into_the_users_settings() {
    let out = fresh(first());
    let v = parsed(&out);
    assert!(!out.contains("docliManaged"), "{out}");
    for event in ["PreToolUse", "SessionStart"] {
        let entry = &v["hooks"][event][0];
        let mut keys: Vec<&String> = entry.as_object().unwrap().keys().collect();
        keys.sort();
        assert_eq!(keys, vec!["hooks", "matcher"], "{event}: {entry}");
        let hook = &entry["hooks"][0];
        let mut hk: Vec<&String> = hook.as_object().unwrap().keys().collect();
        hk.sort();
        assert_eq!(
            hk,
            vec!["command", "shell", "timeout", "type"],
            "{event}: {hook}"
        );
    }
}

#[test]
fn unmergeable_shapes_fall_to_the_print_branch_not_an_error() {
    for bad in [
        "// a comment\n{}",
        "[1,2,3]",
        r#"{"hooks": []}"#,
        r#"{"hooks": {"PreToolUse": {}}}"#,
        "not json",
    ] {
        assert!(
            matches!(merge(first(), Some(bad)), HookOutcome::Occupied(_)),
            "{bad:?} must fall to the print branch"
        );
    }
    let s = snippet(first());
    let body = s.split_once(":\n").expect("path prefix").1;
    serde_json::from_str::<Value>(body).expect("a pasteable snippet");
}

#[test]
fn a_users_own_docli_hook_is_not_mistaken_for_ours() {
    let theirs = r#"{"hooks": {"SessionStart": [
            {"matcher": "startup", "hooks": [{"type": "command", "command": "docli sync --check | tee /tmp/log"}]}
        ]}}"#;
    let out = merged(first(), theirs);
    let v = parsed(&out);
    assert_eq!(
        count(&v, "SessionStart"),
        2,
        "theirs survives beside ours: {out}"
    );
    assert!(out.contains("tee /tmp/log"), "byte-preserved: {out}");
    let back = removed(first(), &out);
    let v = parsed(&back);
    assert_eq!(count(&v, "SessionStart"), 1);
    assert!(back.contains("docli sync --check | tee"), "{back}");
}

#[test]
fn a_matcher_of_ours_that_grew_a_second_handler_is_no_longer_ours() {
    let mut v = parsed(&fresh(first()));
    v["hooks"]["PreToolUse"][0]["hooks"]
        .as_array_mut()
        .unwrap()
        .push(parsed(r#"{"type": "command", "command": "my-audit.sh"}"#));
    let theirs = serde_json::to_string_pretty(&v).unwrap();
    assert!(!is_pre_tool_use_ours(&v));

    let out = merged(first(), &theirs);
    assert!(out.contains("my-audit.sh"), "their handler survives: {out}");
    let v = parsed(&out);
    assert_eq!(count(&v, "PreToolUse"), 2);
    assert!(
        matches!(remove(first(), &out), RemoveOutcome::Removed(back) if back.contains("my-audit.sh"))
    );
}

#[test]
fn identity_is_equality_so_a_command_that_merely_quotes_ours_is_not_ours() {
    let theirs = format!(
        r#"{{"hooks": {{"PreToolUse": [{{"matcher": "Write", "hooks": [{{"type": "command", "command": "printf '{}' >> audit.log"}}]}}]}}}}"#,
        inner_command(first(), Event::PreToolUse)
    );
    let v = parsed(&theirs);
    assert!(!is_pre_tool_use_ours(&v));
    let out = merged(first(), &theirs);
    assert!(out.contains("audit.log"), "{out}");
    assert_eq!(count(&parsed(&out), "PreToolUse"), 2);
}

#[test]
fn ownership_is_per_agent_and_per_event_not_a_global_set() {
    let theirs = format!(
        r#"{{"hooks": {{"PreToolUse": [{{"matcher": "Bash", "hooks": [{{"type": "command", "command": "{}"}}]}}]}}}}"#,
        inner_command(HookAgent::Codex, Event::SessionStart)
    );
    let v = parsed(&theirs);
    assert!(!is_pre_tool_use_ours(&v));
    let out = merged(first(), &theirs);
    assert_eq!(count(&parsed(&out), "PreToolUse"), 2, "{out}");
    let back = removed(first(), &out);
    assert!(
        back.contains(&inner_command(HookAgent::Codex, Event::SessionStart)),
        "theirs survives uninstall: {back}"
    );
}

#[test]
fn removal_reports_nothing_when_nothing_is_ours() {
    assert_eq!(
        remove(first(), r#"{"hooks": {"PreToolUse": []}}"#),
        RemoveOutcome::NothingOfOurs
    );
    assert_eq!(remove(first(), "{}"), RemoveOutcome::NothingOfOurs);
    assert_eq!(remove(first(), "not json"), RemoveOutcome::Refused);
    let with_escape = fresh(first()).replacen(
        '{',
        r#"{"statusLine": "C:\\Users\\me\\bin\\line.exe","#,
        1,
    );
    serde_json::from_str::<Value>(&with_escape).expect("still valid JSON");
    assert_eq!(remove(first(), &with_escape), RemoveOutcome::Refused);
}

#[test]
fn status_reports_a_present_gate_and_notices_a_missing_binary() {
    let s = status(first(), None, true);
    assert!(!s.installed);
    assert_eq!(s.binary_resolves, None, "nothing to resolve");
    let out = fresh(first());
    for on_path in [true, false] {
        let s = status(first(), Some(&out), on_path);
        assert!(s.installed);
        assert_eq!(s.binary_resolves, Some(on_path));
    }
}

#[test]
fn a_working_gate_is_not_reported_as_absent() {
    let mut v = parsed(&fresh(first()));
    v["hooks"]["PreToolUse"][0]["hooks"][0]["timeout"] = Value::from(20);
    let broken_by = |key: &str, value: Value| {
        let mut broken = v.clone();
        broken["hooks"]["PreToolUse"][0]["hooks"][0][key] = value;
        !effectively_ours(
            &json(&broken["hooks"]["PreToolUse"][0]),
            first(),
            Event::PreToolUse,
        )
    };
    assert!(broken_by("type", Value::from("prompt")));
    assert!(broken_by("shell", Value::from("powershell")));
    assert!(broken_by("async", Value::from(true)));
    let mut cv = parsed(&fresh(HookAgent::Codex));
    assert!(effectively_ours(
        &json(&cv["hooks"]["PreToolUse"][0]),
        HookAgent::Codex,
        Event::PreToolUse
    ));
    cv["hooks"]["PreToolUse"][0]["hooks"][0]["commandWindows"] = Value::from("echo nope");
    assert!(!effectively_ours(
        &json(&cv["hooks"]["PreToolUse"][0]),
        HookAgent::Codex,
        Event::PreToolUse
    ));
    let body = serde_json::to_string_pretty(&v).unwrap();
    assert!(status(first(), Some(&body), true).installed);
}

#[test]
fn status_reports_health_not_merely_ownership() {
    let mut v = parsed(&fresh(first()));
    v["hooks"]["PreToolUse"][0]["matcher"] = Value::from("Bash");
    assert!(is_pre_tool_use_ours(&v));
    let body = serde_json::to_string_pretty(&v).unwrap();
    assert!(!status(first(), Some(&body), true).installed);
}

#[test]
fn what_is_rendered_is_recognised() {
    for agent in HookAgent::all(vendor()) {
        for event in EVENTS {
            let entry = entry_for(agent, event);
            assert!(is_ours(&entry, agent, event));
            assert!(effectively_ours(&entry, agent, event));
        }
    }
    assert!(!is_ours(
        &entry_for(HookAgent::Codex, Event::PreToolUse),
        HookAgent::Codex,
        Event::SessionStart
    ));
}

#[test]
fn an_agent_is_named_by_its_key() {
    assert_eq!(HookAgent::parse(vendor(), "codex").unwrap().key(), "codex");
    let a = HookAgent::parse(vendor(), "claude_code").unwrap();
    assert_eq!(a.key(), "claude_code");
    assert_eq!(a.config_path(), ".claude_code/settings.json");
    let e = HookAgent::parse(vendor(), "emacs").unwrap_err();
    assert!(e.contains("emacs"), "{e}");
    assert_eq!(Event::SessionStart.name(), "SessionStart");
}

#[test]
fn an_installation_writes_or_says_why_not() {
    let done = install(HookAgent::Codex, &ConfigRead::Missing);
    assert_eq!(done.write.unwrap(), fresh(HookAgent::Codex));
    let again = install(HookAgent::Codex, &ConfigRead::Text(fresh(HookAgent::Codex)));
    assert!(again.write.is_none());
    assert!(matches!(&again.notices[0], Notice::Done(_)));
    let denied = install(HookAgent::Codex, &ConfigRead::Unreadable("denied".into()));
    assert!(denied.write.is_none());
    assert!(matches!(&denied.notices[0], Notice::Warn(w) if w.contains("denied")));
    let agents = HookAgent::all(vendor()).to_vec();
    assert!(consent_summary(&agents).len() >= 2);
}

#[test]
fn what_a_merge_leaves_is_a_working_guard_and_what_a_removal_leaves_is_not_ours() {
    for agent in [first(), HookAgent::Codex] {
        let own = r#"{ "hooks": { "PreToolUse": [{ "matcher": "Bash", "hooks": [] }] } }"#;
        for text in [fresh(agent), merged(agent, own)] {
            assert!(status(agent, Some(&text), true).installed);
            assert_eq!(merge(agent, Some(&text)), HookOutcome::AlreadyInstalled);
            let rest = removed(agent, &text);
            assert_eq!(remove(agent, &rest), RemoveOutcome::NothingOfOurs);
            assert!(!status(agent, Some(&rest), true).installed);
        }
    }
}
