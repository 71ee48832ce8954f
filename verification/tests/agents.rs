use docli_cli::toml_text::Toml;
use docli_cli::toml_text::parse_toml;
use docli_cli::agents::agent;
use docli_cli::agents::agents;
use docli_cli::agents::cfg_temp_name;
use docli_cli::agents::connection_url;
use docli_cli::agents::connection_url_bare;
use docli_cli::agents::detect;
use docli_cli::agents::entry_points_at;
use docli_cli::agents::inject_frontmatter;
use docli_cli::agents::install_skills;
use docli_cli::agents::skill_copied;
use docli_cli::agents::is_cfg_temp;
use docli_cli::agents::merge_codex_toml;
use docli_cli::agents::merge_for;
use docli_cli::agents::merge_json;
use docli_cli::agents::skill_globs;
use docli_cli::agents::snippet;
use docli_cli::agents::wire;
use docli_cli::agents::wire_failed;
use docli_cli::agents::wire_one;
use docli_cli::agents::wired_here;
use docli_cli::agents::JsonShape;
use docli_cli::agents::McpAdapter;
use docli_cli::agents::MergeOutcome;
use docli_cli::agents::Vendor;
use docli_cli::agents::WireStep;
use docli_cli::config::Component;
use docli_cli::config::Mount;
use docli_cli::json::Json;
use docli_cli::labels::sanitize_label;
use docli_cli::labels::valid_label;
use docli_cli::report::Notice;

const URL: &str = "https://docli.ru/api/mcp/c/myproj";

fn vendor() -> Vendor {
    Vendor {
        key: "claude_code",
        name: "Agent Code",
        display: "Agent Code",
        dir: ".claude_code",
        skill_dir: ".claude_code/skills/docli-mirror",
        settings: ".claude_code/settings.json",
        instructions: "AGENT.md",
    }
}

fn parsed(text: &str) -> serde_json::Value {
    serde_json::from_str(text).unwrap()
}

#[test]
fn sanitized_labels_always_satisfy_the_shared_grammar() {
    for name in [
        "My Docs",
        "докли",
        "a__b.c",
        "ПРОЕКТ-docs",
        "--x--",
        "",
        "___",
        &"x".repeat(200),
        "Ж",
    ] {
        let label = sanitize_label(name);
        assert!(
            valid_label(&label),
            "{name:?} -> {label:?} must be grammar-valid"
        );
    }
    assert_eq!(sanitize_label("My Docs"), "my-docs");
    assert_eq!(sanitize_label("a__b.c"), "a-b-c");
    assert_eq!(sanitize_label("ПРОЕКТ-docs"), "docs");
    assert!(sanitize_label("докли").starts_with("project-"));
    assert_ne!(sanitize_label("докли"), sanitize_label("заметки"));
    assert_eq!(
        sanitize_label("докли"),
        sanitize_label("докли"),
        "deterministic"
    );
    assert_eq!(sanitize_label(&"x".repeat(200)).len(), 64);
}

#[test]
fn connection_url_joins_without_double_slash() {
    assert_eq!(
        connection_url("https://docli.ru/", "x"),
        "https://docli.ru/api/mcp/c/x"
    );
}

#[test]
fn fresh_file_is_created_with_the_top_key() {
    let entry = JsonShape::TypeHttpUrl.entry(URL);
    let MergeOutcome::Write(out) = merge_json(None, "mcpServers", &entry) else {
        panic!("fresh file must write");
    };
    let v = parsed(&out);
    assert_eq!(v["mcpServers"]["docli"]["type"], "http");
    assert_eq!(v["mcpServers"]["docli"]["url"], URL);
}

#[test]
fn merge_preserves_the_users_text_verbatim_outside_the_splice() {
    let existing = "{\n    \"mcpServers\": {\n        \"other\": {\"command\":\"x\"}\n    },\n    \"unrelated\":  [1,2 , 3]\n}";
    let entry = JsonShape::TypeHttpUrl.entry(URL);
    let MergeOutcome::Write(out) = merge_json(Some(existing), "mcpServers", &entry) else {
        panic!("must merge");
    };
    let v = parsed(&out);
    assert_eq!(v["mcpServers"]["docli"]["url"], URL);
    assert_eq!(v["mcpServers"]["other"]["command"], "x");
    assert!(out.contains("\"unrelated\":  [1,2 , 3]"));
    assert!(out.contains("\"other\": {\"command\":\"x\"}"));
}

#[test]
fn merge_creates_the_top_key_when_absent() {
    let existing = r#"{ "$schema": "https://opencode.ai/config.json", "theme": "dark" }"#;
    let entry = JsonShape::OpencodeRemote.entry(URL);
    let MergeOutcome::Write(out) = merge_json(Some(existing), "mcp", &entry) else {
        panic!("must merge");
    };
    let v = parsed(&out);
    assert_eq!(v["mcp"]["docli"]["type"], "remote");
    assert_eq!(v["theme"], "dark");
    assert!(out.contains("\"theme\": \"dark\""), "user text preserved");
}

#[test]
fn our_entry_present_and_identical_is_a_no_op() {
    let same =
        format!(r#"{{ "mcpServers": {{ "docli": {{ "type": "http", "url": "{URL}" }} }} }}"#);
    let entry = JsonShape::TypeHttpUrl.entry(URL);
    assert_eq!(
        merge_json(Some(&same), "mcpServers", &entry),
        MergeOutcome::AlreadyConfigured { same: true }
    );
}

#[test]
fn jsonc_and_non_object_shapes_fall_to_print_not_error() {
    let entry = JsonShape::TypeHttpUrl.entry(URL);
    for bad in [
        "// vscode-style comment\n{ \"servers\": {} }",
        "[1,2,3]",
        "{ \"mcpServers\": [] }",
        "not json at all",
    ] {
        assert!(
            matches!(
                merge_json(Some(bad), "mcpServers", &entry),
                MergeOutcome::Occupied(_)
            ) || matches!(
                merge_json(Some(bad), "servers", &entry),
                MergeOutcome::Occupied(_)
            ),
            "{bad:?} must fall to the print branch"
        );
    }
}

#[test]
fn nested_same_named_key_does_not_fool_the_splicer() {
    let existing = r#"{ "profiles": { "mcpServers": { "decoy": 1 } }, "mcpServers": { "other": { "url": "u" } } }"#;
    let entry = JsonShape::UrlOnly.entry(URL);
    let MergeOutcome::Write(out) = merge_json(Some(existing), "mcpServers", &entry) else {
        panic!("must merge");
    };
    let v = parsed(&out);
    assert_eq!(v["mcpServers"]["docli"]["url"], URL);
    assert_eq!(v["profiles"]["mcpServers"]["decoy"], 1, "decoy untouched");
    assert!(v["profiles"]["mcpServers"].get("docli").is_none());
}

#[test]
fn braces_inside_strings_do_not_break_depth_tracking() {
    let existing = r#"{ "note": "{ not a real { object [", "mcpServers": {} }"#;
    let entry = JsonShape::HttpUrl.entry(URL);
    let MergeOutcome::Write(out) = merge_json(Some(existing), "mcpServers", &entry) else {
        panic!("must merge");
    };
    let v = parsed(&out);
    assert_eq!(v["mcpServers"]["docli"]["httpUrl"], URL);
}

#[test]
fn gemini_and_vscode_spellings_are_exact() {
    let want = Json::Object(vec![("httpUrl".to_string(), Json::Text(URL.to_string()))]);
    assert!(JsonShape::HttpUrl.entry_value(URL).equals(&want));
    let all = agents(vendor());
    let vscode = all.iter().find(|a| a.key == "vscode").unwrap();
    let McpAdapter::Json { top_key, .. } = vscode.adapter else {
        panic!("vscode is a JSON adapter");
    };
    assert_eq!(top_key, "servers");
}

#[test]
fn opencode_fresh_file_carries_the_schema_anchor() {
    let def = agent(vendor(), "opencode").unwrap();
    let (_, outcome) = merge_for(&def, None, URL).unwrap();
    let MergeOutcome::Write(out) = outcome else {
        panic!("fresh write");
    };
    let v = parsed(&out);
    assert_eq!(v["$schema"], "https://opencode.ai/config.json");
    assert_eq!(v["mcp"]["docli"]["enabled"], true);
}

#[test]
fn codex_toml_fresh_and_merge_preserve_user_content() {
    let MergeOutcome::Write(fresh) = merge_codex_toml(None, URL) else {
        panic!("fresh write");
    };
    assert!(fresh.contains("[mcp_servers.docli]"));
    assert!(fresh.contains(&format!("url = \"{URL}\"")));

    let existing =
        "# my codex settings\nmodel = \"gpt-5\"\n\n[mcp_servers.other]\ncommand = \"x\"\n";
    let MergeOutcome::Write(out) = merge_codex_toml(Some(existing), URL) else {
        panic!("must merge");
    };
    assert!(out.contains("# my codex settings"), "comment preserved");
    assert!(out.contains("model = \"gpt-5\""));
    assert!(out.contains("[mcp_servers.other]"));
    assert!(out.contains("[mcp_servers.docli]"));
}

#[test]
fn codex_toml_identical_entry_is_a_no_op_and_bad_toml_prints() {
    let same = format!("[mcp_servers.docli]\nurl = \"{URL}\"\n");
    assert_eq!(
        merge_codex_toml(Some(&same), URL),
        MergeOutcome::AlreadyConfigured { same: true }
    );
    assert!(matches!(
        merge_codex_toml(Some("not = [valid"), URL),
        MergeOutcome::Occupied(_)
    ));
}

/// The configurations of a project, by path.
fn bodies(files: &[(&str, &str)]) -> Vec<Option<String>> {
    agents(vendor())
        .iter()
        .map(|d| {
            let path = d.config_path()?;
            let (_, body) = files.iter().find(|(p, _)| *p == path)?;
            Some(body.to_string())
        })
        .collect()
}

fn wired(files: &[(&str, &str)], server: &str) -> Vec<String> {
    wired_here(vendor(), &bodies(files), server)
}

#[test]
fn wired_here_needs_our_entry_not_just_the_origin() {
    let server = "https://docli.ru";
    let other = r#"{"mcpServers":{"other":{"type":"http","url":"https://docli.ru/api/other"}}}"#;
    assert!(wired(&[(".mcp.json", other)], server).is_empty());
    let ours = r#"{"mcpServers":{"docli":{"type":"http","url":"https://docli.ru/api/mcp/c/x"}}}"#;
    assert_eq!(wired(&[(".mcp.json", ours)], server).len(), 1);
    let pretty = "{\n  \"mcpServers\": {\n    \"docli\": {\n      \"type\": \"http\",\n      \
                  \"url\": \"https://docli.ru/api/mcp/c/x\"\n    }\n  }\n}\n";
    assert_eq!(wired(&[(".mcp.json", pretty)], server).len(), 1);
    let toml = "[mcp_servers.docli]\nurl = \"https://docli.ru/api/mcp/c/x\"\n";
    let both = [(".mcp.json", pretty), (".codex/config.toml", toml)];
    assert_eq!(wired(&both, server).len(), 2);
    assert!(wired(&both, "https://other.example").is_empty());
    for url in [
        "https://docli.ru/api/other",
        "https://docli.ru",
        "https://docli.ru/",
        "https://docli.ru?x",
        "https://docli.ru/api/mcp/c/Blog",
        "https://docli.ru/api/mcp/c/",
        "https://docli.ru/api/mcp/c/blog/extra",
        "https://docli.ru/api/mcp/c/blog/",
        "https://docli.ru/api/mcp/c/blog?x=1",
        "https://docli.ru/api/mcp/",
        "https://docli.ru/api/mcp?x=1",
        "https://docli.ru.evil/api/mcp",
    ] {
        let body = format!(r#"{{"mcpServers":{{"docli":{{"type":"http","url":"{url}"}}}}}}"#);
        assert!(wired(&[(".mcp.json", &body)], server).is_empty(), "{url}");
    }
    for url in ["https://docli.ru/api/mcp", "https://docli.ru/api/mcp/c/proj"] {
        let body = format!(r#"{{"mcpServers":{{"docli":{{"type":"http","url":"{url}"}}}}}}"#);
        assert_eq!(wired(&[(".mcp.json", &body)], server).len(), 1, "{url}");
    }
    let stdio = r#"{"mcpServers":{"docli":{"type":"stdio","url":"https://docli.ru/api/mcp"}}}"#;
    assert!(wired(&[(".mcp.json", stdio)], server).is_empty());
    for toml in [
        "[mcp_servers.docli_backup]\nurl = \"https://docli.ru/api/mcp/c/x\"\n",
        "[mcp_servers.docli]\ncommand = \"x\"\n\n[mcp_servers.other]\nurl = \"https://docli.ru/api/mcp\"\n",
    ] {
        assert!(wired(&[(".codex/config.toml", toml)], server).is_empty(), "{toml}");
    }
    let codex = agent(vendor(), "codex").unwrap();
    assert!(entry_points_at(
        &codex,
        "[mcp_servers.docli]\nurl = \"https://docli.ru/api/mcp\"\n",
        server
    ));
}

#[test]
fn detection_reads_project_and_home_markers() {
    let project = vec![".cursor".to_string()];
    let home = vec![".codex".to_string()];
    let found = detect(vendor(), &project, Some(&home));
    assert!(found.contains(&"cursor"), "project marker");
    assert!(found.contains(&"codex"), "home marker");
    assert!(!found.contains(&"gemini"));
    assert_eq!(detect(vendor(), &project, None), vec!["cursor"]);
    let dangling = vec![".cursor".to_string(), ".mcp.json".to_string()];
    assert!(detect(vendor(), &dangling, None).contains(&"claude_code"));
}

#[test]
fn the_shared_asset_stays_spec_clean_and_claude_gets_the_extension() {
    let asset = "---\nname: docli-mirror\ndescription: x\n---\n\n# body\n";
    let globs = vec!["docli-mirror/**".to_string()];
    let first = agent(vendor(), "claude_code").unwrap();
    let qwen = agent(vendor(), "qwen").unwrap();
    assert!(first.accepts_claude_frontmatter);
    assert!(!qwen.accepts_claude_frontmatter);
    let copies = install_skills(&vec![first, qwen], asset, &globs);
    let c = &copies[0].text;
    assert_eq!(copies[0].dir, ".claude_code/skills/docli-mirror");
    assert!(c.contains("paths: [\"docli-mirror/**\"]"), "{c}");
    assert!(
        c.contains("name: docli-mirror") && c.ends_with("# body\n"),
        "{c}"
    );
    assert_eq!(copies[1].dir, ".qwen/skills/docli-mirror");
    assert_eq!(copies[1].text, asset);
}

fn components(path: &str) -> Vec<Component> {
    let mut out = Vec::new();
    if path.starts_with('/') {
        out.push(Component::Root("/".into()));
    }
    for seg in path.split('/').filter(|s| !s.is_empty()) {
        out.push(Component::Normal(seg.into()));
    }
    out
}

fn globs(dirs: &[&str]) -> Vec<String> {
    let mounts: Vec<Mount> = dirs
        .iter()
        .map(|d| Mount {
            workspace: 1,
            dir: d.to_string(),
            derived_dir: false,
            folder: None,
            name: None,
        })
        .collect();
    let parts: Vec<Vec<Component>> = dirs.iter().map(|d| components(d)).collect();
    skill_globs(&components("/proj"), &mounts, &parts)
}

#[test]
fn the_globs_come_from_the_mount_table_not_a_static_guess() {
    assert_eq!(
        globs(&["notes", "docli-mirror/agitek"]),
        vec!["notes/**".to_string(), "docli-mirror/agitek/**".to_string()]
    );
    assert_eq!(globs(&["/proj/inside"]), vec!["inside/**"]);
    assert!(globs(&["/var/tmp/outside"]).is_empty());
    for meta in ["mirror[prod]", "a*b", "q?", "{x,y}", "!neg"] {
        assert!(globs(&[meta]).is_empty(), "{meta}");
    }
}

#[test]
fn a_glob_that_would_break_the_frontmatter_is_escaped() {
    let asset = "---\nname: x\n---\nbody\n";
    let out = inject_frontmatter(asset, "paths", &vec!["we\"ird/**".to_string()]);
    assert!(out.contains(r#"paths: ["we\"ird/**"]"#), "{out}");
    assert_eq!(
        inject_frontmatter("no frontmatter\n", "paths", &vec!["a".into()]),
        "no frontmatter\n"
    );
}

/// What wiring an agent writes into a project with these files.
fn written(key: &str, existing: Option<&str>) -> Option<String> {
    let def = agent(vendor(), key).unwrap();
    match wire_one(&def, &Ok(existing.map(str::to_string)), URL) {
        WireStep::Write { content, .. } => Some(content),
        WireStep::Say(_) => None,
    }
}

#[test]
fn wire_writes_selected_adapters_and_copies_off_standard_skills() {
    let out = written(
        "claude_code",
        Some(r#"{ "mcpServers": { "other": { "command": "x" } } }"#),
    )
    .unwrap();
    let mcp = parsed(&out);
    assert_eq!(mcp["mcpServers"]["docli"]["url"], URL);
    assert_eq!(mcp["mcpServers"]["other"]["command"], "x");
    let codex = written("codex", None).unwrap();
    assert!(codex.contains("[mcp_servers.docli]"));
    assert!(written("qwen", None).is_none());
    let qwen = agent(vendor(), "qwen").unwrap();
    let copies = install_skills(&vec![qwen], "SKILLBODY", &Vec::new());
    assert_eq!(copies.len(), 1);
    assert_eq!(copies[0].dir, ".qwen/skills/docli-mirror");
    assert_eq!(copies[0].text, "SKILLBODY");
    assert_eq!(
        skill_copied(&copies[0], None),
        Notice::Detail("wrote .qwen/skills/docli-mirror/SKILL.md".to_string())
    );
    match skill_copied(&copies[0], Some("denied")) {
        Notice::Refuse(t) => assert!(
            t.starts_with(
                "Qwen Code (snippet + skill copy): could not write \
                 .qwen/skills/docli-mirror/SKILL.md (denied) - "
            ),
            "{t}"
        ),
        other => panic!("{other:?}"),
    }
}

#[test]
fn a_wired_file_keeps_the_rest_and_is_recognised() {
    let def = agent(vendor(), "cursor").unwrap();
    let text = "{ \"mine\": 1, \"mcpServers\": { \"other\": {} } }";
    let out = match merge_for(&def, Some(text), URL) {
        Some((_, MergeOutcome::Write(t))) => t,
        other => panic!("{other:?}"),
    };
    assert!(out.starts_with("{ \"mine\": 1, \"mcpServers\": {"), "{out}");
    assert!(out.ends_with(" \"other\": {} } }\n"), "{out}");
    assert!(entry_points_at(&def, &out, "https://docli.ru"), "{out}");
    assert!(!entry_points_at(&def, text, "https://docli.ru"));
}

#[test]
fn wire_never_writes_a_credential_or_token_field() {
    for def in agents(vendor()) {
        let body = written(def.key, None).unwrap_or_default().to_lowercase();
        for needle in ["token", "authorization", "bearer", "secret", "password"] {
            assert!(
                !body.contains(needle),
                "{} must not carry {needle}",
                def.key
            );
        }
    }
}

#[test]
fn a_rerun_with_a_different_url_updates_our_entry_and_nothing_else() {
    let existing = r#"{
    "mcpServers": {
        "other": {"command":"x"},
        "docli": { "type": "http", "url": "https://docli.ru/api/mcp/c/old-label" }
    },
    "unrelated":  [1,2 , 3]
}"#;
    let entry = JsonShape::TypeHttpUrl.entry(URL);
    let MergeOutcome::Write(out) = merge_json(Some(existing), "mcpServers", &entry) else {
        panic!("must update in place");
    };
    let v = parsed(&out);
    assert_eq!(v["mcpServers"]["docli"]["url"], URL);
    assert_eq!(v["mcpServers"]["other"]["command"], "x");
    assert!(
        out.contains("\"unrelated\":  [1,2 , 3]"),
        "user text preserved"
    );
    assert!(!out.contains("old-label"));

    let toml_existing = "# mine\n[mcp_servers.docli]\nurl = \"https://docli.ru/api/mcp/c/old\"\n";
    let MergeOutcome::Write(out) = merge_codex_toml(Some(toml_existing), URL) else {
        panic!("must update in place");
    };
    assert!(out.contains("# mine"));
    assert!(out.contains(&format!("url = \"{URL}\"")));
    assert!(!out.contains("/c/old\""));

    let weird = r#"{ "mcpServers": { "docli": "hand-edited" } }"#;
    let MergeOutcome::Write(out) = merge_json(Some(weird), "mcpServers", &entry) else {
        panic!("must update in place");
    };
    let v = parsed(&out);
    assert_eq!(v["mcpServers"]["docli"]["url"], URL);
}

#[test]
fn a_merge_of_what_was_merged_changes_nothing() {
    let entry = JsonShape::TypeHttpUrl.entry(URL);
    for existing in [None, Some("{ \"mcpServers\": {\"a\": 1} }"), Some("{\"x\":[]}")] {
        let MergeOutcome::Write(once) = merge_json(existing, "mcpServers", &entry) else {
            panic!("must write");
        };
        assert_eq!(
            merge_json(Some(&once), "mcpServers", &entry),
            MergeOutcome::AlreadyConfigured { same: true }
        );
    }
    let MergeOutcome::Write(once) = merge_codex_toml(Some("a = 1\n"), URL) else {
        panic!("must write");
    };
    assert_eq!(
        merge_codex_toml(Some(&once), URL),
        MergeOutcome::AlreadyConfigured { same: true }
    );
}

#[test]
fn json_metacharacters_in_the_server_cannot_break_or_extend_the_entry() {
    let evil = r#"https://e.ru", "command": "curl evil"#;
    let url = connection_url(evil, "x");
    let entry = JsonShape::TypeHttpUrl.entry(&url);
    let v = parsed(&entry);
    assert_eq!(v["url"], url);
    assert!(v.get("command").is_none());
    let MergeOutcome::Write(out) = merge_json(None, "mcpServers", &entry) else {
        panic!("must write");
    };
    let v = parsed(&out);
    assert_eq!(v["mcpServers"]["docli"]["url"], url);
    assert!(v["mcpServers"]["docli"].get("command").is_none());
}

#[test]
fn codex_toml_weird_docli_shapes_replace_instead_of_panicking() {
    for weird in [
        "[mcp_servers]\ndocli = \"https://old\"\n",
        "mcp_servers = { docli = 5 }\n",
        "[[mcp_servers.docli]]\nurl = \"x\"\n",
    ] {
        let MergeOutcome::Write(out) = merge_codex_toml(Some(weird), URL) else {
            panic!("{weird:?} must converge");
        };
        let doc: toml_edit::DocumentMut = out.parse().unwrap();
        assert_eq!(
            doc["mcp_servers"]["docli"]["url"].as_str(),
            Some(URL),
            "{weird:?} -> {out}"
        );
    }
    let aug = "[mcp_servers.docli]\ncommand = \"npx\"\nurl = \"https://old\"\n";
    let MergeOutcome::Write(out) = merge_codex_toml(Some(aug), URL) else {
        panic!("must converge");
    };
    assert!(!out.contains("command"), "wholesale replace: {out}");
    assert!(out.contains(&format!("url = \"{URL}\"")));
}

#[test]
fn every_other_member_reads_back_as_it_was() {
    let entry = JsonShape::TypeHttpUrl.entry(URL);
    let shapes = [
        "{}",
        " { \"a\" : [ 1.50 , -2e9, \"}\\\"{\" ] } ",
        "{\"mcpServers\":{}}",
        "{\"x\": {\"mcpServers\": {\"docli\": 1}}, \"mcpServers\" : { \"o\" : { \"u\" : [ \"\\u00e9\" ] } } }",
        "{\"mcpServers\": {\"docli\": 7, \"b\": null}, \"c\": false}",
        "{\"mcpServers\": {\"a\": {\"docli\": 2}, \"docli\": {\"url\": \"]\", \"k\": [[], {}]}}}",
        "{\"mcpServers\": {\"docli\" : \"old\" }}",
    ];
    for shape in shapes {
        let MergeOutcome::Write(out) = merge_json(Some(shape), "mcpServers", &entry) else {
            panic!("{shape}");
        };
        let (mut was, mut now) = (parsed(shape), parsed(&out));
        assert_eq!(now["mcpServers"]["docli"]["url"], URL);
        for v in [&mut was, &mut now] {
            if let Some(servers) = v["mcpServers"].as_object_mut() {
                servers.remove("docli");
                if servers.is_empty() {
                    v.as_object_mut().unwrap().remove("mcpServers");
                }
            } else {
                v.as_object_mut().unwrap().remove("mcpServers");
            }
        }
        assert_eq!(now, was, "{out}");
        assert_eq!(
            merge_json(Some(&out), "mcpServers", &entry),
            MergeOutcome::AlreadyConfigured { same: true }
        );
    }
    let def = agent(vendor(), "opencode").unwrap();
    let Some((_, MergeOutcome::Write(new))) = merge_for(&def, None, URL) else {
        panic!("a new file");
    };
    assert!(matches!(
        merge_for(&def, Some(&new), URL),
        Some((_, MergeOutcome::AlreadyConfigured { same: true }))
    ));
}

#[test]
fn a_second_codex_merge_finds_the_entry() {
    let shapes = [
        "",
        "# c",
        "a = 1",
        "a = 1\r\n# end",
        "[x]\ny = 1 # z",
        "[mcp_servers]\ndocli = \"https://old\"\n",
        "[mcp_servers]\n# mine\ndocli = 5 # why\n",
        "[mcp_servers]\n\ndocli = { url = \"x\", a = 1 } # why\nother = 2",
        "mcp_servers = { docli = 5 }\n",
        "mcp_servers = { a = 1, docli = 5, b = { c = 2 } } # q\n[z]\n",
        "mcp_servers = {}\n",
        "mcp_servers = { a = [\n1,\n2 # x\n] }\n",
        "mcp_servers.x = 1",
        "mcp_servers.x = 1\nmcp_servers.docli = 3",
        "mcp_servers.docli.url = \"old\"\nmcp_servers.docli.b.c = 1\n[t]\n",
        "[mcp_servers]\ndocli.url = \"x\"\ndocli.z.y = 1\n",
        "[[mcp_servers.docli]]\nurl = \"x\"\n[[mcp_servers.docli]]\n",
        "# hi\n[[mcp_servers.docli]] # k\nurl = \"x\"\n",
        "[mcp_servers.docli.env]\nA = 1\n[[arr]]\nb = 1\n[[arr]]\n[arr.sub]\n",
        "[[arr]]\nx = 1\n[mcp_servers.other]\nurl = \"o\"\n[[arr]]\n",
        " [ mcp_servers . docli ] # note\nurl = \"x\"\nk = 1\n[mcp_servers.docli.sub]\n",
        "f = 1e3\nd = 1979-05-27T07:32:00Z # when\n[mcp_servers]\n# a\nb = [ { c = inf } ]\n# before\ndocli = 1\n# behind\ne = ''\n",
        "[mcp_servers]\ndocli = 1\n[mcp_servers.other]\n[z.y]\nx = \"\"\"\na\"\"\"\n",
        "[mcp_servers]\n\"docli\" = 1\nmore.docli = 2\n",
    ];
    for shape in shapes {
        for url in ["https://d/api", "a'b\"", "x\\y'z", "l1\nl2", ""] {
            let MergeOutcome::Write(out) = merge_codex_toml(Some(shape), url) else {
                panic!("{shape:?} {url:?}");
            };
            assert_eq!(
                merge_codex_toml(Some(&out), url),
                MergeOutcome::AlreadyConfigured { same: true },
                "{out}"
            );
            assert_eq!(without_entry(&out), without_entry(shape), "{out}");
        }
    }
}

/// A TOML text without our entry, and without a table that held nothing else.
fn without_entry(text: &str) -> toml::Table {
    let mut t: toml::Table = toml::from_str(text).unwrap();
    if let Some(toml::Value::Table(servers)) = t.get_mut("mcp_servers") {
        servers.remove("docli");
        if servers.is_empty() {
            t.remove("mcp_servers");
        }
    }
    t
}

#[test]
fn a_replaced_codex_entry_stays_in_its_place() {
    let was = "[mcp_servers]\ndocli = \"x\"\n\n[mcp_servers.other]\nurl = \"o\"\n";
    let MergeOutcome::Write(out) = merge_codex_toml(Some(was), "https://d") else {
        panic!("must converge");
    };
    assert_eq!(
        out,
        "[mcp_servers]\n\n[mcp_servers.docli]\nurl = \"https://d\"\n\n[mcp_servers.other]\nurl = \"o\"\n"
    );
    assert_eq!(
        merge_codex_toml(None, "https://d"),
        MergeOutcome::Write("[mcp_servers.docli]\nurl = \"https://d\"\n".to_string())
    );
}

#[test]
fn a_toml_text_is_read_item_by_item() {
    let text = "t = \"x\"\ni = -3\nf = 1.5\nb = true\nd = 2020-01-02\na = [1, \"y\"]\n\
                n = { k = 1 }\n[m]\nz = \"w\"\n[[r]]\nq = 1\n";
    let root = parse_toml(text).unwrap();
    assert!(matches!(root.get("t"), Some(Toml::Text(t)) if t == "x"));
    assert!(matches!(root.get("i"), Some(Toml::Integer(-3))));
    assert!(matches!(root.get("f"), Some(Toml::Float(f)) if f == "1.5"));
    assert!(matches!(root.get("b"), Some(Toml::Boolean(true))));
    assert!(matches!(root.get("d"), Some(Toml::Datetime(d)) if d == "2020-01-02"));
    assert!(matches!(root.get("a"), Some(Toml::Array(a)) if a.len() == 2));
    assert!(matches!(root.get("n"), Some(Toml::Inline(_))));
    assert!(matches!(root.get("r"), Some(Toml::Tables(r)) if r.len() == 1));
    let m = root.get("m").unwrap();
    assert!(m.is_table_like() && m.holds_only("z", "w"));
    assert!(!m.holds_only("z", "v") && !m.holds_only("y", "w"));
    assert!(!root.holds_only("t", "x") && !root.get("t").unwrap().is_table_like());
    assert!(root.get("none").is_none() && parse_toml("a = ").is_none());
}

#[test]
fn a_label_derives_itself() {
    for name in ["My Docs", "a__b.c", "--x--", "докли", "A", "x9-y"] {
        let label = sanitize_label(name);
        assert!(!label.is_empty());
        assert!(!label.starts_with('-') && !label.ends_with('-') && !label.contains("--"));
        assert_eq!(sanitize_label(&label), label);
    }
    assert_eq!(sanitize_label("--x--"), "x");
    assert!(sanitize_label("...").starts_with("project-"));
}

#[test]
fn escaped_key_aliases_refuse_the_merge_instead_of_editing_the_loser() {
    let bs = char::from(92u8);
    let aliased = format!(
        r#"{{ "mcpServers": {{ "docli": {{"url":"old1"}}, "{bs}u0064ocli": {{"url":"old2"}} }} }}"#
    );
    let entry = JsonShape::UrlOnly.entry(URL);
    let seen = parsed(&aliased);
    assert_eq!(seen["mcpServers"]["docli"]["url"], "old2");
    let out = merge_json(Some(&aliased), "mcpServers", &entry);
    assert!(
        !matches!(out, MergeOutcome::Write(_)),
        "must not write over an aliased duplicate: {out:?}"
    );
    let top_aliased = format!(
        r#"{{ "mcpServers": {{ "a": 1 }}, "{bs}u006dcpServers": {{ "docli": {{"url":"x"}} }} }}"#
    );
    assert!(
        !matches!(
            merge_json(Some(&top_aliased), "mcpServers", &entry),
            MergeOutcome::Write(_)
        ),
        "top-level aliases refuse too"
    );
}

#[test]
fn cfg_sweep_spares_user_files_that_merely_share_the_prefix() {
    assert!(is_cfg_temp(".docli-cfg-00112233445566aa.tmp"));
    assert!(!is_cfg_temp(".docli-cfg-manual-backup.tmp"));
    assert!(!is_cfg_temp(".docli-cfg-DEADBEEFDEADBEEF.tmp"));
    let own = cfg_temp_name(&[0, 17, 34, 51, 68, 85, 102, 255]);
    assert_eq!(own, ".docli-cfg-00112233445566ff.tmp");
    assert!(is_cfg_temp(&own));
}

#[test]
fn snippets_escape_metacharacter_urls_too() {
    let evil = connection_url(r#"https://e.ru", "command": "curl evil"#, "x");
    for def in agents(vendor()) {
        let snip = snippet(&def, &evil);
        for line in snip.lines().filter(|l| l.trim_start().starts_with('{')) {
            let v: serde_json::Value = serde_json::from_str(line.trim())
                .unwrap_or_else(|e| panic!("{}: unparseable snippet line {line:?}: {e}", def.key));
            assert!(
                line.contains("e.ru"),
                "{}: url missing from {line:?}",
                def.key
            );
            assert!(v.is_object());
        }
    }
}

#[test]
fn duplicate_depth1_keys_refuse_the_splice() {
    let dup = r#"{ "mcpServers": { "a": 1 }, "mcpServers": { "b": 2 } }"#;
    let entry = JsonShape::UrlOnly.entry(URL);
    assert!(matches!(
        merge_json(Some(dup), "mcpServers", &entry),
        MergeOutcome::Occupied(_)
    ));
}

#[test]
fn non_utf8_existing_config_prints_instead_of_failing_init() {
    let def = agent(vendor(), "claude_code").unwrap();
    let read = Err("stream did not contain valid UTF-8".to_string());
    match wire_one(&def, &read, URL) {
        WireStep::Say(Notice::Warn(w)) => assert!(w.contains("UTF-8"), "{w}"),
        other => panic!("{other:?}"),
    }
}

#[test]
fn claude_code_gets_its_skill_at_the_documented_path() {
    let first = agent(vendor(), "claude_code").expect("the first row");
    assert_eq!(
        first.skill_copy_dir,
        Some(".claude_code/skills/docli-mirror"),
        "the agent needs an explicit skill copy; it does not read `.agents/skills/`"
    );
}

#[test]
fn bare_url_and_every_named_agent_has_a_specific_snippet() {
    assert_eq!(
        connection_url_bare("https://docli.ru/"),
        "https://docli.ru/api/mcp"
    );
    for def in agents(vendor()) {
        let snip = snippet(&def, URL);
        assert!(snip.contains(URL), "{}: {snip}", def.key);
        assert!(
            !snip.starts_with("add a remote MCP server"),
            "{} fell to the generic arm",
            def.key
        );
    }
}

#[test]
fn wiring_begins_with_what_it_is_about() {
    let said = wire(URL, true);
    assert_eq!(said[0], Notice::Heading("This project's MCP connection".into()));
    let def = agent(vendor(), "cursor").unwrap();
    match wire_failed(&def, "disk full", URL) {
        Notice::Refuse(w) => assert!(w.contains("disk full") && w.contains(URL), "{w}"),
        other => panic!("{other:?}"),
    }
}

#[test]
fn an_entry_is_found_again_as_deep_as_it_may_nest() {
    let entry = format!("{}{}", "[".repeat(125), "]".repeat(125));
    let files = [None, Some("{}"), Some("{\"mcpServers\": {}}"), Some("{\"mcpServers\": {\"docli\": 1}}")];
    for file in files {
        let MergeOutcome::Write(out) = merge_json(file, "mcpServers", &entry) else {
            panic!("{file:?}");
        };
        assert_eq!(
            merge_json(Some(&out), "mcpServers", &entry),
            MergeOutcome::AlreadyConfigured { same: true }
        );
    }
}
