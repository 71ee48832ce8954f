use docli_cli::agents::Vendor;
use docli_cli::apply::hand_edit_overwritten;
use docli_cli::config::geometry_key;
use docli_cli::config::lexical_normalize;
use docli_cli::config::physicalize;
use docli_cli::config::resolve_mount_dirs;
use docli_cli::config::Component;
use docli_cli::config::DocliToml;
use docli_cli::config::IgnoreState;
use docli_cli::config::Mount;
use docli_cli::config::MountPlace;
use docli_cli::config::ProjectPlace;
use docli_cli::guard::candidate_paths;
use docli_cli::guard::decide;
use docli_cli::guard::mirror_write_refusal;
use docli_cli::guard::patch_envelope_paths;
use docli_cli::guard::read_question;
use docli_cli::guard::response;
use docli_cli::guard::run;
use docli_cli::guard::Decision;
use docli_cli::guard::LinkWalk;
use docli_cli::guard::Project;
use docli_cli::guard::Target;
use docli_cli::guard::MIRROR_RULE;
use docli_cli::hooks::HookAgent;
use docli_cli::json::Json;

fn vendor() -> Vendor {
    Vendor {
        key: "claude_code",
        name: "Agent",
        display: "Agent",
        dir: ".agent",
        skill_dir: ".agent/skills/docli",
        settings: ".agent/settings.json",
        instructions: "AGENT.md",
    }
}

fn text(s: &str) -> Json {
    Json::Text(s.to_string())
}

fn object(members: Vec<(&str, Json)>) -> Json {
    Json::Object(members.into_iter().map(|(k, v)| (k.to_string(), v)).collect())
}

fn parts(path: &str) -> Vec<String> {
    path.split('/').filter(|s| !s.is_empty()).map(str::to_string).collect()
}

fn place(key: &str) -> MountPlace {
    MountPlace {
        key: parts(key),
        in_vault: false,
        ignore: IgnoreState::Covered,
    }
}

/// A project at `/p` with one mirror at `/p/<dir>`.
fn project_at(dir: &str) -> Project {
    Project {
        config: DocliToml {
            server: "https://docli.ru".into(),
            mounts: vec![Mount {
                workspace: 1,
                dir: dir.into(),
                derived_dir: false,
                folder: None,
                name: Some("заметки".into()),
            }],
            mcp_label: None,
        },
        names: vec!["заметки".into()],
        places: vec![place(&if dir == "." {
            "p".to_string()
        } else {
            format!("p/{dir}")
        })],
        place: ProjectPlace {
            root: parts("p"),
            control: parts("p/.docli"),
            control_state: parts("p/.docli/state"),
            control_markers: parts("p/.docli/markers"),
            control_ignore: IgnoreState::Covered,
        },
    }
}

fn project() -> Option<Project> {
    Some(project_at("mirror"))
}

/// Where the paths of a call lead, seen from `/p`.
fn targets(payload: &Json) -> Vec<Target> {
    candidate_paths(payload)
        .into_iter()
        .map(|spelled| {
            let mut at: Vec<String> = if spelled.starts_with('/') {
                Vec::new()
            } else {
                parts("p")
            };
            for seg in spelled.split('/') {
                match seg {
                    "" | "." => {}
                    ".." => {
                        at.pop();
                    }
                    s => at.push(s.to_string()),
                }
            }
            let at: Vec<Component> = at.into_iter().map(Component::Normal).collect();
            Target {
                key: geometry_key(&at, None),
                spelled,
            }
        })
        .collect()
}

fn edit(path: &str) -> Json {
    object(vec![
        ("tool_input", object(vec![("file_path", text(path))])),
        ("tool_name", text("Edit")),
    ])
}

fn decide_on(payload: &Json) -> Decision {
    decide(&project(), &targets(payload))
}

#[test]
fn a_write_inside_the_mirror_is_denied_and_the_reason_teaches() {
    let d = decide_on(&edit("mirror/sub/note.md"));
    let Decision::Deny(reason) = d else {
        panic!("must deny: {d:?}");
    };
    assert!(reason.contains("edit_note"), "{reason}");
    assert!(reason.contains("docli sync"), "{reason}");
    assert!(reason.contains("заметки"), "{reason}");
    assert!(matches!(decide_on(&edit("/p/mirror/x.md")), Decision::Deny(_)));
    assert!(matches!(
        decide_on(&edit("mirror/brand/new/file.md")),
        Decision::Deny(_)
    ));
}

#[test]
fn a_mount_without_a_directory_is_guarded_where_it_is_cached() {
    let mut p = project_at("");
    resolve_mount_dirs(&mut p.config, Some("/h/mirror/")).unwrap();
    let dir = p.config.mounts[0].dir.clone();
    assert_eq!(dir, "/h/mirror/00000000-0000-0000-0000-000000000001");
    p.places = vec![place(&dir)];
    let inside = edit(&format!("{dir}/note.md"));
    let p = Some(p);
    assert!(matches!(decide(&p, &targets(&inside)), Decision::Deny(_)));
    assert!(matches!(decide(&p, &targets(&edit("/p/note.md"))), Decision::Allow));
}

#[test]
fn writes_outside_the_mirror_are_allowed() {
    for p in [
        "src/main.rs",
        "docli.toml",
        "../elsewhere/x.md",
        "mirrorless/x.md",
        "mirror-adjacent/x.md",
    ] {
        assert_eq!(decide_on(&edit(p)), Decision::Allow, "{p}");
    }
}

#[test]
fn uncertainty_allows_rather_than_bricking_the_agent() {
    assert_eq!(decide(&None, &targets(&edit("mirror/x.md"))), Decision::Allow);
    let mut nomounts = project_at("mirror");
    nomounts.config.mounts.clear();
    nomounts.names.clear();
    nomounts.places.clear();
    assert_eq!(
        decide(&Some(nomounts), &targets(&edit("mirror/x.md"))),
        Decision::Allow
    );
    // A table that parses and that no command would accept: the mirror is the project itself.
    let whole = Some(project_at("."));
    assert_eq!(
        decide(&whole, &targets(&edit("docli.toml"))),
        Decision::Allow
    );
}

#[test]
fn the_multi_edit_and_notebook_shapes_are_seen() {
    let multi = object(vec![
        (
            "tool_input",
            object(vec![(
                "edits",
                Json::Array(vec![
                    object(vec![("file_path", text("src/ok.rs"))]),
                    object(vec![("file_path", text("mirror/note.md"))]),
                ]),
            )]),
        ),
        ("tool_name", text("MultiEdit")),
    ]);
    assert!(matches!(decide_on(&multi), Decision::Deny(_)));
    let nb = object(vec![
        (
            "tool_input",
            object(vec![("notebook_path", text("mirror/n.ipynb"))]),
        ),
        ("tool_name", text("NotebookEdit")),
    ]);
    assert!(matches!(decide_on(&nb), Decision::Deny(_)));
}

fn command(tool: &str, cmd: &str) -> Json {
    object(vec![
        ("tool_input", object(vec![("command", text(cmd))])),
        ("tool_name", text(tool)),
    ])
}

#[test]
fn codexs_apply_patch_envelope_is_read_but_shell_is_not() {
    let patch = command(
        "apply_patch",
        "apply_patch <<'EOF'\n*** Begin Patch\n*** Update File: mirror/note.md\n@@\n-a\n+b\n*** End Patch\nEOF",
    );
    assert!(matches!(decide_on(&patch), Decision::Deny(_)));
    for marker in ["*** Add File: ", "*** Delete File: ", "*** Move to: "] {
        let v = command("apply_patch", &format!("{marker}mirror/x.md"));
        assert!(matches!(decide_on(&v), Decision::Deny(_)), "{marker}");
    }
    for prefix in [" ", "-", "+"] {
        let v = command(
            "apply_patch",
            &format!("*** Begin Patch\n*** Update File: docs/howto.md\n@@\n{prefix}*** Update File: mirror/note.md\n*** End Patch"),
        );
        assert_eq!(
            decide_on(&v),
            Decision::Allow,
            "a {prefix:?}-prefixed line is patch CONTENT, not a header"
        );
    }
    let shell = command("Bash", "sed -i '' s/a/b/ mirror/note.md");
    assert_eq!(decide_on(&shell), Decision::Allow);
}

#[test]
fn an_mcp_call_is_never_ruled_on() {
    let v = object(vec![
        ("tool_input", object(vec![("path", text("mirror/x.md"))])),
        ("tool_name", text("mcp__docli__edit_note")),
    ]);
    assert_eq!(decide_on(&v), Decision::Allow);
    assert!(candidate_paths(&v).is_empty());
}

#[test]
fn the_response_is_the_documented_envelope_on_both_agents() {
    let deny = Decision::Deny("because".into());
    for agent in HookAgent::all(vendor()) {
        let body = response(agent, &deny).expect("a deny has a body");
        let v: serde_json::Value = serde_json::from_str(&body).unwrap();
        assert_eq!(v["hookSpecificOutput"]["hookEventName"], "PreToolUse");
        assert_eq!(v["hookSpecificOutput"]["permissionDecision"], "deny");
        assert_eq!(
            v["hookSpecificOutput"]["permissionDecisionReason"],
            "because"
        );
        assert_eq!(response(agent, &Decision::Allow), None);
    }
    assert_eq!(
        response(HookAgent::ClaudeCode(vendor()), &deny),
        response(HookAgent::Codex, &deny)
    );
}

#[test]
fn a_malformed_payload_allows_silently() {
    for v in [
        object(vec![]),
        object(vec![("tool_input", Json::Uint(42))]),
        object(vec![("tool_input", object(vec![("file_path", Json::Uint(7))]))]),
        object(vec![("tool_input", object(vec![("file_path", text("   "))]))]),
    ] {
        assert_eq!(decide_on(&v), Decision::Allow, "{v:?}");
    }
}

#[test]
fn the_rule_is_one_constant_shared_with_the_cli_s_own_message() {
    let reason = mirror_write_refusal("mirror/n.md", "notes");
    assert!(reason.contains(MIRROR_RULE));
    assert!(hand_edit_overwritten("n.md").contains(MIRROR_RULE));
}

#[test]
fn paths_come_in_the_order_of_their_keys() {
    let v = object(vec![(
        "tool_input",
        object(vec![
            ("command", text("*** Add File: z.md")),
            ("edits", Json::Array(vec![object(vec![("path", text("e"))])])),
            ("file_path", text("a")),
            ("file_paths", Json::Array(vec![text("f"), Json::Null, text(" ")])),
            ("path", text("b")),
            ("paths", Json::Array(vec![text("g")])),
        ]),
    )]);
    assert_eq!(candidate_paths(&v), vec!["a", "b", "e", "f", "g", "z.md"]);
    assert_eq!(
        patch_envelope_paths("*** Move to:  x y \r\n*** Add File: \nnone"),
        vec!["x y"]
    );
}

fn normal(path: &str) -> Vec<Component> {
    let mut out = Vec::new();
    if path.starts_with('/') {
        out.push(Component::Root("/".into()));
    }
    for seg in path.split('/').filter(|s| !s.is_empty()) {
        out.push(match seg {
            ".." => Component::ParentDir,
            s => Component::Normal(s.into()),
        });
    }
    out
}

fn spelled(path: &[Component]) -> Vec<String> {
    path.iter().map(|c| c.text()).collect()
}

#[test]
fn a_chain_of_links_is_followed_eight_times_at_most() {
    let mut walk = LinkWalk::new(normal("/p/sub/rel.md"));
    assert!(walk.more());
    walk.step(Some(normal("../mirror/other.md")));
    assert_eq!(
        spelled(walk.at()),
        vec!["/", "p", "sub", "..", "mirror", "other.md"]
    );
    walk.step(Some(normal("/abs/x")));
    assert_eq!(spelled(walk.at()), vec!["/", "abs", "x"]);
    walk.step(None);
    assert!(!walk.more());
    assert_eq!(spelled(walk.at()), vec!["/", "abs", "x"]);
    let mut cycle = LinkWalk::new(normal("/p/a"));
    let mut read = 0;
    while cycle.more() {
        cycle.step(Some(normal(if read % 2 == 0 { "b" } else { "a" })));
        read += 1;
    }
    assert_eq!(read, 9);
    assert_eq!(spelled(cycle.at()), vec!["/", "p", "a"], "a cycle leads nowhere");
    // An odd cycle too.
    let ring = [("/p/a", "b"), ("/p/b", "c"), ("/p/c", "a")];
    assert_eq!(spelled(&followed("/p/a", &ring)), vec!["/", "p", "a"]);
    assert_eq!(spelled(&followed("/p/b", &ring)), vec!["/", "p", "b"]);
    // Eight links lead to their end.
    let links: Vec<(String, String)> =
        (0..8).map(|i| (format!("/p/{i}"), format!("{}", i + 1))).collect();
    let chain: Vec<(&str, &str)> = links.iter().map(|l| (l.0.as_str(), l.1.as_str())).collect();
    assert_eq!(spelled(&followed("/p/0", &chain)), vec!["/", "p", "8"]);
}

#[test]
fn the_call_names_the_directory_that_governs() {
    let raw = "{\"cwd\":\"/agent\",\"tool_input\":{\"path\":\"x\"}}";
    let q = read_question(Some(raw), Some("/here")).unwrap();
    assert_eq!(q.cwd, "/agent");
    assert_eq!(q.paths, vec!["x"]);
    assert_eq!(read_question(Some("{}"), Some("/here")).unwrap().cwd, "/here");
    assert_eq!(read_question(Some("{}"), None).unwrap().cwd, ".");
    assert!(read_question(Some("not json"), None).is_none());
    assert!(read_question(None, None).is_none());
}

#[test]
fn the_exit_code_is_always_zero() {
    let asked = read_question(Some("{}"), None);
    let denied = targets(&edit("mirror/x.md"));
    let (out, code) = run(HookAgent::Codex, &asked, &project(), &denied);
    assert!(out.is_some());
    assert_eq!(code, 0);
    assert_eq!(run(HookAgent::Codex, &None, &project(), &denied), (None, 0));
    assert_eq!(run(HookAgent::Codex, &asked, &None, &denied), (None, 0));
}

/// Where a path leads, given what each link reads.
fn followed(path: &str, links: &[(&str, &str)]) -> Vec<Component> {
    let mut walk = LinkWalk::new(normal(path));
    while walk.more() {
        let at = spelled(&lexical_normalize(walk.at())[1..]).join("/");
        let read = links.iter().find(|l| l.0.trim_start_matches('/') == at);
        walk.step(read.map(|l| normal(l.1)));
    }
    lexical_normalize(walk.at())
}

fn decide_at(spelling: &str, path: &[Component]) -> Decision {
    let target = Target {
        spelled: spelling.into(),
        key: spelled(&path[1..]),
    };
    decide(&project(), &vec![target])
}

#[test]
fn a_dangling_symlink_into_the_mirror_is_denied_too() {
    let links = [
        ("/p/shortcut.md", "/p/mirror/brand-new.md"),
        ("/p/sub/rel.md", "../mirror/other.md"),
        ("/p/sub/out.md", "../elsewhere/x.md"),
        ("/p/loop-a.md", "loop-b.md"),
        ("/p/loop-b.md", "loop-a.md"),
    ];
    let ruled = |name: &str| decide_at(name, &followed(&format!("/p/{name}"), &links));
    assert!(matches!(ruled("shortcut.md"), Decision::Deny(_)));
    assert!(matches!(ruled("sub/rel.md"), Decision::Deny(_)));
    assert_eq!(ruled("sub/out.md"), Decision::Allow);
    assert_eq!(ruled("loop-a.md"), Decision::Allow);
}

#[test]
fn a_symlink_into_the_mirror_is_still_denied() {
    let path = parts("p/shortcut/note.md");
    let target = Target {
        spelled: "shortcut/note.md".into(),
        key: physicalize(&path, Some(2), Some(&parts("p/mirror"))),
    };
    assert!(matches!(
        decide(&project(), &vec![target]),
        Decision::Deny(_)
    ));
    let lexical = Target {
        spelled: "shortcut/note.md".into(),
        key: path,
    };
    assert_eq!(decide(&project(), &vec![lexical]), Decision::Allow);
}

#[test]
fn case_varied_and_decomposed_spellings_are_denied_where_the_filesystem_folds() {
    for path in ["MIRROR/note.md", "Mirror/note.md"] {
        let at: Vec<Component> = normal(&format!("p/{path}"));
        let folds: Vec<String> = at.iter().map(|c| c.text().to_lowercase()).collect();
        let target = |key: Vec<String>| Target {
            spelled: path.into(),
            key,
        };
        assert!(matches!(
            decide(&project(), &vec![target(geometry_key(&at, Some(&folds)))]),
            Decision::Deny(_)
        ));
        assert_eq!(
            decide(&project(), &vec![target(geometry_key(&at, None))]),
            Decision::Allow
        );
    }
}
