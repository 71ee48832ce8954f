use docli_cli::init_cmd::IgnorePlace;
use docli_cli::init_cmd::missing_lines;
use docli_cli::agents::agents;
use docli_cli::agents::install_skills;
use docli_cli::agents::skill_globs;
use docli_cli::agents::AgentDef;
use docli_cli::agents::Vendor;
use docli_cli::config::default_server;
use docli_cli::config::find_project;
use docli_cli::config::geometry_key;
use docli_cli::config::mount_abs;
use docli_cli::config::Component;
use docli_cli::config::ConfigError;
use docli_cli::config::DocliToml;
use docli_cli::config::IgnoreState;
use docli_cli::config::Mount;
use docli_cli::config::MountPlace;
use docli_cli::config::ProjectPlace;
use docli_cli::config::Shown;
use docli_cli::config::ShownMount;
use docli_cli::init_cmd::check_paths;
use docli_cli::init_cmd::closing;
use docli_cli::init_cmd::config_text;
use docli_cli::init_cmd::hooks_limit;
use docli_cli::init_cmd::intent;
use docli_cli::init_cmd::one_connection;
use docli_cli::init_cmd::parse_agent_list;
use docli_cli::init_cmd::plan_mcp;
use docli_cli::init_cmd::ready;
use docli_cli::init_cmd::refuse_nested;
use docli_cli::init_cmd::shape;
use docli_cli::init_cmd::skill_description;
use docli_cli::init_cmd::unignored_notices;
use docli_cli::init_cmd::unmounted_notices;
use docli_cli::init_cmd::InitArgs;
use docli_cli::init_cmd::InitError;
use docli_cli::init_cmd::Intent;
use docli_cli::init_cmd::McpPlan;
use docli_cli::init_cmd::SKILL_MD;
use docli_cli::report::Notice;

const CACHE: &str = "/home/u/.docli/cache/";

fn vendor() -> Vendor {
    Vendor {
        key: "claude_code",
        name: "Agent Code",
        display: "Agent Code",
        dir: ".claude_code",
        skill_dir: ".claude_code/skills/docli-mirror",
        settings: ".claude_code/settings.json",
        instructions: "AGENT.md",
    }
}

fn args() -> InitArgs {
    InitArgs {
        workspace: None,
        dir: None,
        folder: None,
        name: None,
        server: Some("https://docli.ru".into()),
        mcp: None,
        mcp_label: None,
        mcp_bare: false,
        allow_prompt: false,
        clear_folder: false,
        write_gitignore: false,
        skills: Some("none".into()),
        hooks: None,
        instructions: false,
    }
}

fn mounted(ws: u128, dir: &str) -> InitArgs {
    InitArgs {
        workspace: Some(ws),
        dir: Some(dir.into()),
        ..args()
    }
}

fn components(path: &str) -> Vec<Component> {
    let mut out = Vec::new();
    if path.starts_with('/') {
        out.push(Component::Root("/".into()));
    }
    for seg in path.split('/').filter(|s| !s.is_empty()) {
        out.push(match seg {
            "." => Component::CurDir,
            ".." => Component::ParentDir,
            s => Component::Normal(s.into()),
        });
    }
    out
}

fn key(dir: &str) -> Vec<String> {
    let abs = mount_abs(&components("/proj"), &components(dir));
    geometry_key(&abs, None)
}

fn place() -> ProjectPlace {
    ProjectPlace {
        root: key("."),
        control: key("/home/u/.docli/control"),
        control_state: key("/home/u/.docli/control/state"),
        control_markers: key("/home/u/.docli/control/markers"),
        control_ignore: IgnoreState::NotInRepo,
    }
}

fn places(c: &DocliToml) -> Vec<MountPlace> {
    c.mounts
        .iter()
        .map(|m| MountPlace {
            key: key(&m.dir),
            in_vault: false,
            ignore: IgnoreState::NotInRepo,
        })
        .collect()
}

fn copy(c: &DocliToml) -> DocliToml {
    DocliToml {
        server: c.server.clone(),
        mounts: c
            .mounts
            .iter()
            .map(|m| Mount {
                workspace: m.workspace,
                dir: m.dir.clone(),
                derived_dir: m.derived_dir,
                folder: m.folder.clone(),
                name: m.name.clone(),
            })
            .collect(),
        mcp_label: c.mcp_label.clone(),
    }
}

fn said(e: InitError) -> String {
    match e {
        InitError::Table(t, c) => {
            let shown = Shown {
                mounts: c
                    .mounts
                    .iter()
                    .map(|_| ShownMount {
                        clean_name: "n".into(),
                        path: "p".into(),
                        vault: "v".into(),
                        git_fault: "g".into(),
                        worktree: "w".into(),
                        lines: "l".into(),
                    })
                    .collect(),
                control_git_fault: "g".into(),
                control_worktree: "w".into(),
            };
            t.message(&c, &shown)
        }
        other => other.message().unwrap(),
    }
}

/// One run of the command in `/proj`, on the table that the last one left.
fn run(disk: &mut Option<DocliToml>, args: &InitArgs) -> Result<Intent, InitError> {
    let before = match disk {
        Some(c) => copy(c),
        None => DocliToml {
            server: default_server(),
            mounts: Vec::new(),
            mcp_label: None,
        },
    };
    let shaped = shape(before, args, Some(CACHE))?;
    let plan = plan_mcp(vendor(), args, false)?;
    let will = intent(
        vendor(),
        &shaped.config,
        args,
        &plan,
        &Vec::new(),
        &Vec::new(),
        "proj",
    )?;
    let at = places(&shaped.config);
    check_paths(&shaped.config, &at, &place())
        .map_err(|e| InitError::Table(e, copy(&shaped.config)))?;
    let done = ready(shaped.config, will.label.clone(), &at, &place())?;
    *disk = Some(done.for_disk());
    Ok(will)
}

#[test]
fn init_in_a_git_repository_with_the_default_mount_succeeds() {
    let mut disk = None;
    let a = InitArgs {
        workspace: Some(7),
        instructions: true,
        ..args()
    };
    run(&mut disk, &a).expect("init must succeed in a git repository");
    run(&mut disk, &a).expect("a re-run must succeed too");
    let c = disk.unwrap();
    assert_eq!(c.mounts.len(), 1);
    assert_eq!(c.mounts[0].dir, "", "a derived dir must not be written");
    assert_eq!(c.mounts[0].workspace, 7);
}

#[test]
fn a_re_run_without_a_workspace_keeps_the_default_mount() {
    let mut disk = None;
    run(&mut disk, &InitArgs { workspace: Some(7), ..args() }).unwrap();
    assert_eq!(disk.as_ref().unwrap().mounts[0].dir, "");
    let will = run(&mut disk, &InitArgs { mcp: Some("cursor".into()), ..args() }).unwrap();
    assert_eq!(will.wire, ["cursor"]);
    let kept = disk.unwrap();
    assert_eq!(kept.mounts.len(), 1);
    assert_eq!(kept.mounts[0].dir, "", "the cache path is not written down");
    let homeless = shape(kept, &args(), None).unwrap_err();
    assert!(matches!(homeless, InitError::Table(ConfigError::NoHome, _)));
}

#[test]
fn init_refuses_a_mount_table_the_readers_would_refuse() {
    let mut disk = None;
    run(&mut disk, &mounted(1, "m1")).unwrap();
    let taken = InitArgs {
        name: Some("00000000-0000-0000-0000-000000000001".into()),
        ..mounted(2, "m2")
    };
    let e = said(run(&mut disk, &taken).expect_err("the collision must be refused"));
    assert!(e.contains("workspace id"), "{e}");
    let blank = InitArgs {
        name: Some("   ".into()),
        ..mounted(2, "m2")
    };
    let e = said(run(&mut disk, &blank).expect_err("a blank name must be refused too"));
    assert!(e.contains("blank display name"), "{e}");
    let c = disk.unwrap();
    assert_eq!(c.mounts.len(), 1);
    assert_eq!(c.mounts[0].workspace, 1);
}

#[test]
fn re_running_init_repoints_the_mount_instead_of_duplicating_it() {
    let mut disk = None;
    let base = || InitArgs {
        folder: Some("docs".into()),
        ..mounted(11, "cache")
    };
    run(&mut disk, &base()).unwrap();
    run(&mut disk, &base()).unwrap();
    assert_eq!(disk.as_ref().unwrap().mounts.len(), 1);
    run(&mut disk, &mounted(11, "other")).unwrap();
    let c = disk.as_ref().unwrap();
    assert_eq!(c.mounts.len(), 1);
    assert_eq!(c.mounts[0].dir, "other");
    assert_eq!(c.mounts[0].folder.as_deref(), Some("docs"));
    run(&mut disk, &mounted(12, "second")).unwrap();
    assert_eq!(disk.unwrap().mounts.len(), 2);
}

#[test]
fn a_folder_scope_survives_a_re_run_and_clears_only_when_asked() {
    let mut disk = None;
    let scoped = InitArgs {
        folder: Some("docs".into()),
        ..mounted(21, "cache")
    };
    run(&mut disk, &scoped).unwrap();
    run(&mut disk, &mounted(21, "cache")).unwrap();
    assert_eq!(
        disk.as_ref().unwrap().mounts[0].folder.as_deref(),
        Some("docs")
    );
    let cleared = InitArgs {
        clear_folder: true,
        ..mounted(21, "cache")
    };
    run(&mut disk, &cleared).unwrap();
    assert_eq!(disk.unwrap().mounts[0].folder, None);
}

#[test]
fn an_explicit_server_applies_but_never_strands_existing_mounts() {
    let mut disk = None;
    let bare = |server: &str| InitArgs {
        server: Some(server.into()),
        mcp: Some("none".into()),
        ..args()
    };
    run(&mut disk, &bare("https://a.example")).unwrap();
    assert_eq!(disk.as_ref().unwrap().server, "https://a.example");
    run(&mut disk, &bare("https://b.example/")).unwrap();
    assert_eq!(disk.as_ref().unwrap().server, "https://b.example");
    let mount = |server: Option<&str>| InitArgs {
        server: server.map(str::to_string),
        mcp: Some("none".into()),
        ..mounted(31, "cache")
    };
    run(&mut disk, &mount(None)).unwrap();
    let err = said(run(&mut disk, &mount(Some("https://c.example"))).unwrap_err());
    assert!(err.contains("another server's workspace ids"), "{err}");
    assert_eq!(
        disk.unwrap().server,
        "https://b.example",
        "a refusal must leave the file untouched"
    );
}

#[test]
fn init_writes_config_and_skill_and_round_trips() {
    let mut disk = None;
    let a = InitArgs {
        folder: Some("docs".into()),
        name: Some("заметки".into()),
        ..mounted(7, "mirror/notes")
    };
    run(&mut disk, &a).unwrap();
    let c = disk.unwrap();
    assert_eq!(c.mounts.len(), 1);
    assert_eq!(c.mounts[0].workspace, 7);
    assert_eq!(c.mounts[0].folder.as_deref(), Some("docs"));
    assert!(SKILL_MD.contains("never synced and never protected"));
    assert!(SKILL_MD.contains("only a server search that does not report an incomplete"));
    assert!(SKILL_MD.contains("sync --check"));
    assert!(SKILL_MD.contains("prefer `edit_note`"));
    assert!(SKILL_MD.contains("conflictSiblingId"));
    let description = skill_description(SKILL_MD).expect("frontmatter description");
    let description = description.as_str();
    assert!(
        description.contains("докли"),
        "the description must match the Russian spelling: {description}"
    );
    for marker in ["docli.toml", ".docli/mirror/", ".docli"] {
        assert!(
            description.contains(marker),
            "the description must name {marker}: {description}"
        );
    }
    let with_extra = SKILL_MD.replacen(
        "\nallowed-tools:",
        "\nwhen_to_use: |\n  найди в докли docli.toml docli-mirror/ .docli\nallowed-tools:",
        1,
    );
    let d = skill_description(&with_extra).expect("still parses");
    assert!(
        !d.contains("when_to_use") && !d.contains("найди"),
        "the description slice must stop at the next key: {d}"
    );
}

#[test]
fn the_shared_asset_carries_no_qualified_tool_name() {
    assert!(
        !SKILL_MD.contains("docli:"),
        "no `docli:`-qualified tool names in the shared asset"
    );
    assert!(
        SKILL_MD.contains("docli MCP connection"),
        "the server is named in prose"
    );
}

#[test]
fn the_asset_frontmatter_stays_inside_the_agent_skills_six() {
    const SPEC_FIELDS: [&str; 6] = [
        "name",
        "description",
        "license",
        "compatibility",
        "metadata",
        "allowed-tools",
    ];
    let body = SKILL_MD.strip_prefix("---\n").expect("frontmatter");
    let front = &body[..body.find("\n---").expect("frontmatter ends")];
    for line in front.lines() {
        let Some((key, _)) = line.split_once(':') else {
            continue;
        };
        if key.starts_with(char::is_whitespace) || key.is_empty() {
            continue;
        }
        assert!(
            SPEC_FIELDS.contains(&key),
            "`{key}` is outside the Agent Skills six and would fail packaging: {line}"
        );
    }
}

#[test]
fn the_body_is_written_as_standing_rules_not_a_session_start_procedure() {
    assert!(!SKILL_MD.contains("At session start"), "the wrong mood");
    assert!(!SKILL_MD.contains("cache for reading"));
    for pin in [
        "never synced and never protected",
        "only a server search that does not report an incomplete",
        "sync --check",
        "prefer `edit_note`",
        "conflictSiblingId",
    ] {
        assert!(SKILL_MD.contains(pin), "the rewrite must preserve: {pin}");
    }
    for pin in [
        "publishes **no local mirror path** for its results",
        "exits 3 when this mirror does not hold the requested note or file",
        "never an empty list",
    ] {
        assert!(SKILL_MD.contains(pin), "the contract must carry: {pin}");
    }
}

#[test]
fn mcp_flag_wires_the_selected_agent_with_a_validated_label() {
    let mut disk = None;
    let a = InitArgs {
        mcp: Some("claude_code".into()),
        mcp_label: Some("myproj".into()),
        ..args()
    };
    for _ in 0..2 {
        let will = run(&mut disk, &a).unwrap();
        assert_eq!(will.wire, vec!["claude_code"]);
        assert_eq!(
            will.url,
            Some(("https://docli.ru/api/mcp/c/myproj".to_string(), true))
        );
    }
}

#[test]
fn mcp_flag_refuses_unknown_agents_and_off_grammar_labels() {
    let mut disk = None;
    let mut a = InitArgs {
        mcp: Some("claude_code,nonsense".into()),
        ..args()
    };
    let err = said(run(&mut disk, &a).unwrap_err());
    assert!(err.contains("unknown agent"), "{err}");
    assert!(disk.is_none(), "nothing is written");
    a.mcp = Some("claude_code".into());
    a.mcp_label = Some("Мой Проект".into());
    let err = said(run(&mut disk, &a).unwrap_err());
    assert!(err.contains("is invalid"), "{err}");
    assert!(disk.is_none());
}

#[test]
fn label_is_persisted_and_wins_over_dir_derivation() {
    let mut disk = None;
    let mut a = InitArgs {
        mcp: Some("cursor".into()),
        mcp_label: Some("stable-label".into()),
        ..args()
    };
    run(&mut disk, &a).unwrap();
    assert_eq!(
        disk.as_ref().unwrap().mcp_label.as_deref(),
        Some("stable-label")
    );
    a.mcp = Some("gemini".into());
    a.mcp_label = None;
    let will = run(&mut disk, &a).unwrap();
    assert_eq!(will.wire, vec!["gemini"]);
    assert_eq!(
        will.url.unwrap().0,
        "https://docli.ru/api/mcp/c/stable-label"
    );
}

#[test]
fn bare_flag_writes_the_unlabeled_url_and_persists_no_label() {
    let mut disk = None;
    let a = InitArgs {
        mcp: Some("claude_code".into()),
        mcp_bare: true,
        ..args()
    };
    let will = run(&mut disk, &a).unwrap();
    assert_eq!(will.url, Some(("https://docli.ru/api/mcp".to_string(), false)));
    assert_eq!(disk.unwrap().mcp_label, None);
}

#[test]
fn a_persisted_off_grammar_label_is_refused_not_laundered() {
    let mut disk = Some(DocliToml {
        server: "https://docli.ru".into(),
        mounts: Vec::new(),
        mcp_label: Some("Мой Проект".into()),
    });
    let a = InitArgs {
        server: None,
        mcp: Some("claude_code".into()),
        ..args()
    };
    let err = said(run(&mut disk, &a).unwrap_err());
    assert!(err.contains("is invalid"), "{err}");
}

#[test]
fn a_control_character_server_is_refused_before_any_echo() {
    let mut disk = None;
    let a = InitArgs {
        server: Some(format!("https://docli.ru{}[2JFORGED", char::from(27u8))),
        mcp: Some("claude_code".into()),
        mcp_label: Some("x".into()),
        ..args()
    };
    let err = said(run(&mut disk, &a).unwrap_err());
    assert!(err.contains("control characters"), "{err}");
    assert!(disk.is_none());
}

#[test]
fn without_the_flag_nothing_is_wired() {
    let mut disk = None;
    let will = run(&mut disk, &args()).unwrap();
    assert!(will.wire.is_empty());
    assert!(will.url.is_none());
    assert!(will.hooks.is_empty());
    assert!(will.hint);
}

#[test]
fn the_skill_reaches_claude_code_even_when_no_mcp_config_is_written() {
    let mut disk = None;
    let a = InitArgs {
        mcp: Some("none".into()),
        skills: Some("claude_code".into()),
        ..mounted(41, "docli-mirror/notes")
    };
    let will = run(&mut disk, &a).unwrap();
    assert_eq!(will.skills, vec!["claude_code"]);
    assert!(will.url.is_none());
    let c = disk.unwrap();
    let parts: Vec<Vec<Component>> = c.mounts.iter().map(|m| components(&m.dir)).collect();
    let globs = skill_globs(&components("/proj"), &c.mounts, &parts);
    let defs: Vec<AgentDef> = agents(vendor())
        .into_iter()
        .filter(|d| will.skills.contains(&d.key))
        .collect();
    let copies = install_skills(&defs, SKILL_MD, &globs);
    assert_eq!(copies[0].dir, ".claude_code/skills/docli-mirror");
    assert!(
        copies[0].text.contains(r#"paths: ["docli-mirror/notes/**"]"#),
        "{}",
        copies[0].text
    );
}

#[test]
fn no_input_writes_no_hooks_unless_the_flag_names_agents() {
    let mut disk = None;
    let hooks = |h: Option<&str>| InitArgs {
        mcp: Some("none".into()),
        hooks: h.map(str::to_string),
        ..mounted(41, "docli-mirror/notes")
    };
    assert!(run(&mut disk, &hooks(None)).unwrap().hooks.is_empty());
    assert!(run(&mut disk, &hooks(Some("none"))).unwrap().hooks.is_empty());
    let err = said(run(&mut disk, &hooks(Some("cursor"))).unwrap_err());
    assert!(err.contains("--hooks"), "{err}");
    let will = run(&mut disk, &hooks(Some("claude_code,codex,codex"))).unwrap();
    let keys: Vec<&str> = will.hooks.iter().map(|h| h.key()).collect();
    assert_eq!(keys, ["claude_code", "codex"]);
}

#[test]
fn init_refuses_a_geometry_breaking_mount() {
    let mut disk = None;
    let a = InitArgs {
        server: None,
        ..mounted(7, ".")
    };
    let err = said(run(&mut disk, &a).unwrap_err());
    assert!(err.contains("docli.toml or .docli/ directory"), "{err}");
    assert!(disk.is_none());
}

#[test]
fn init_refuses_to_shadow_an_ancestor_project() {
    let found = find_project(&vec![false, true]);
    let err = said(refuse_nested(found, "/outer").unwrap_err());
    assert!(err.contains("inside the docli project"), "{err}");
    refuse_nested(find_project(&vec![true, true]), "/outer").unwrap();
    refuse_nested(None, "").unwrap();
}

#[test]
fn flags_that_shape_a_mount_need_a_mount() {
    let mut disk = None;
    let dir = InitArgs {
        dir: Some("m".into()),
        ..args()
    };
    assert!(matches!(
        run(&mut disk, &dir).unwrap_err(),
        InitError::DirAlone
    ));
    let folder = InitArgs {
        folder: Some("docs".into()),
        ..args()
    };
    let e = run(&mut disk, &folder).unwrap_err();
    assert!(matches!(e, InitError::StrayFlags { .. }));
    assert!(said(e).contains("--folder"));
}

#[test]
fn agents_are_named_by_key() {
    assert_eq!(
        parse_agent_list(vendor(), " cursor , ,codex,cursor", "--mcp", false).unwrap(),
        ["cursor", "codex", "cursor"]
    );
    assert_eq!(
        parse_agent_list(vendor(), "cursor,cursor", "--skills", true).unwrap(),
        ["cursor"]
    );
    assert!(matches!(
        plan_mcp(
            vendor(),
            &InitArgs {
                mcp: Some("auto".into()),
                ..args()
            },
            false
        ),
        Ok(McpPlan::Auto)
    ));
    assert!(matches!(
        plan_mcp(
            vendor(),
            &InitArgs {
                allow_prompt: true,
                ..args()
            },
            true
        ),
        Ok(McpPlan::Prompt)
    ));
}

#[test]
fn the_next_step_is_named() {
    assert_eq!(unmounted_notices(true).len(), 1);
    assert_eq!(unmounted_notices(false).len(), 2);
    let lines = vec!["mirror/".to_string()];
    assert_eq!(unignored_notices(&lines).len(), 3);
    assert!(unignored_notices(&Vec::new()).is_empty());
    assert!(one_connection(1).is_none());
    assert!(matches!(one_connection(2), Some(Notice::Detail(d)) if d.contains("mounts 2 ")));
    assert!(matches!(hooks_limit(), Notice::Detail(_)));
    assert_eq!(closing(vendor(), true, false), vec![Notice::Next("Sync: docli sync".into())]);
    let text = config_text("server = \"x\"\n");
    assert!(text.starts_with("# docli.toml") && text.ends_with("server = \"x\"\n"));
}

#[test]
fn a_missing_ignore_line_is_asked_for_once() {
    let at = |ignore: IgnoreState| MountPlace { key: vec![], in_vault: false, ignore };
    let own = |rel: &str| IgnorePlace { inside_control: false, rel: rel.to_string() };
    let inner = || IgnorePlace { inside_control: true, rel: ".docli/mirror".to_string() };
    let project = |control_ignore: IgnoreState| ProjectPlace {
        root: vec!["p".to_string()],
        control: vec!["p".to_string(), ".docli".to_string()],
        control_state: vec![],
        control_markers: vec![],
        control_ignore,
    };
    let missing = || IgnoreState::Missing;
    let covered = || IgnoreState::Covered;
    let none: Vec<String> = vec![];

    assert_eq!(missing_lines(&vec![], &vec![], &project(covered()), ""), none);
    assert_eq!(missing_lines(&vec![], &vec![], &project(missing()), ""), vec![".docli/"]);
    assert_eq!(missing_lines(&vec![], &vec![], &project(missing()), "x\n  .docli/ \r\n"), none);
    assert_eq!(
        missing_lines(
            &vec![at(missing()), at(covered()), at(missing()), at(missing())],
            &vec![own("a"), own("b"), inner(), own("a")],
            &project(missing()),
            "# ours\n",
        ),
        vec!["a/", ".docli/"]
    );
    assert_eq!(
        missing_lines(&vec![at(missing())], &vec![own("a/b")], &project(covered()), ".docli/"),
        vec!["a/b/"]
    );
    assert_eq!(
        missing_lines(&vec![at(covered())], &vec![own("a")], &project(missing()), ""),
        vec![".docli/"]
    );
    assert_eq!(
        missing_lines(&vec![at(IgnoreState::Unknown)], &vec![own("a")], &project(IgnoreState::NotInRepo), ""),
        none
    );
    let mut away = project(missing());
    away.control = vec!["home".to_string(), ".docli".to_string()];
    assert_eq!(missing_lines(&vec![], &vec![], &away, ""), none);
}
