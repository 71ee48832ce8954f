use docli_cli::config::default_server;
use docli_cli::config::find_git_worktree;
use docli_cli::config::find_project;
use docli_cli::config::geometry_key;
use docli_cli::config::git_fault;
use docli_cli::config::ignore_lines;
use docli_cli::config::ignore_state;
use docli_cli::config::is_ancestor_or_self;
use docli_cli::config::lexical_normalize;
use docli_cli::config::mount_abs;
use docli_cli::config::parse_config;
use docli_cli::config::path_below;
use docli_cli::config::physicalize;
use docli_cli::config::resolve_mount_dirs;
use docli_cli::config::validate_config;
use docli_cli::config::validate_geometry;
use docli_cli::config::validate_geometry_paths_only;
use docli_cli::config::Component;
use docli_cli::config::ConfigError;
use docli_cli::config::DocliToml;
use docli_cli::config::GitExit;
use docli_cli::config::IgnoreState;
use docli_cli::config::Mount;
use docli_cli::config::MountPlace;
use docli_cli::config::ProjectPlace;
use docli_cli::config::Shown;
use docli_cli::config::ShownMount;

fn cfg(mounts: Vec<Mount>) -> DocliToml {
    DocliToml {
        server: default_server(),
        mounts,
        mcp_label: None,
    }
}

fn mount(ws: u128, dir: &str) -> Mount {
    Mount {
        workspace: ws,
        dir: dir.into(),
        derived_dir: false,
        folder: None,
        name: None,
    }
}

fn components(path: &str) -> Vec<Component> {
    let mut out = Vec::new();
    if path.starts_with('/') {
        out.push(Component::Root("/".into()));
    }
    for seg in path.split('/').filter(|s| !s.is_empty()) {
        out.push(match seg {
            "." => Component::CurDir,
            ".." => Component::ParentDir,
            s => Component::Normal(s.into()),
        });
    }
    out
}

fn names(path: &[Component]) -> Vec<String> {
    path.iter().map(|c| c.text()).collect()
}

fn key(root: &str, dir: &str) -> Vec<String> {
    let abs = mount_abs(&components(root), &components(dir));
    geometry_key(&abs, None)
}

fn project(root: &str) -> ProjectPlace {
    ProjectPlace {
        root: key(root, "."),
        control: key(root, ".docli"),
        control_state: key(root, ".docli/state"),
        control_markers: key(root, ".docli/markers"),
        control_ignore: IgnoreState::NotInRepo,
    }
}

fn places(root: &str, c: &DocliToml) -> Vec<MountPlace> {
    c.mounts
        .iter()
        .map(|m| MountPlace {
            key: key(root, &m.dir),
            in_vault: false,
            ignore: IgnoreState::NotInRepo,
        })
        .collect()
}

fn shown(c: &DocliToml) -> Shown {
    Shown {
        mounts: c
            .mounts
            .iter()
            .map(|m| ShownMount {
                clean_name: m.display_name().to_string(),
                path: format!("/p/{}", m.dir),
                vault: "/p/vault".into(),
                git_fault: "git failed".into(),
                worktree: "/p".into(),
                lines: "  mirror/".into(),
            })
            .collect(),
        control_git_fault: "git failed".into(),
        control_worktree: "/p".into(),
    }
}

fn refused_at(root: &str, c: &DocliToml) -> String {
    let e = validate_geometry(c, &places(root, c), &project(root)).unwrap_err();
    e.message(c, &shown(c))
}

fn refused(c: &DocliToml) -> String {
    refused_at("/p", c)
}

#[test]
fn duplicate_workspace_ids_are_refused() {
    let c = cfg(vec![mount(1, "a"), mount(1, "b")]);
    let err = refused(&c);
    assert!(err.contains("mounted more than once"), "{err}");
}

#[test]
fn overlapping_and_nested_mounts_are_refused() {
    for (a, b) in [("m", "m"), ("m", "m/sub"), ("m/sub", "m")] {
        let c = cfg(vec![mount(1, a), mount(2, b)]);
        let err = refused(&c);
        assert!(err.contains("overlap"), "{a} vs {b}: {err}");
    }
    let c = cfg(vec![mount(1, "ma"), mount(2, "mb")]);
    validate_geometry(&c, &places("/p", &c), &project("/p")).unwrap();
}

#[test]
fn a_mount_containing_the_control_plane_is_refused_both_directions() {
    let err = refused(&cfg(vec![mount(1, ".")]));
    assert!(err.contains("docli.toml or .docli/ directory"), "{err}");
    let err = refused_at("/p/proj", &cfg(vec![mount(1, "..")]));
    assert!(err.contains("docli.toml or .docli/ directory"), "{err}");
    let c = cfg(vec![mount(1, ".docli/mirror")]);
    validate_geometry(&c, &places("/p", &c), &project("/p"))
        .expect(".docli/mirror is the default mount location");
    for bad in [".docli", ".docli/state", ".docli/markers"] {
        let err = refused(&cfg(vec![mount(1, bad)]));
        assert!(err.contains("control plane"), "{bad}: {err}");
    }
}

/// How a filesystem that folds spells a name: composed, and in lower case.
fn fs_fold(name: &str) -> String {
    name.replace("E\u{301}", "\u{c9}").to_lowercase()
}

fn folded_key(path: &Vec<Component>) -> Vec<String> {
    let folds: Vec<String> = names(path).iter().map(|s| fs_fold(s)).collect();
    geometry_key(path, Some(&folds))
}

fn folded_places(c: &DocliToml) -> Vec<MountPlace> {
    c.mounts
        .iter()
        .map(|m| MountPlace {
            key: folded_key(&mount_abs(&components("/p"), &components(&m.dir))),
            in_vault: false,
            ignore: IgnoreState::NotInRepo,
        })
        .collect()
}

#[test]
fn a_case_varied_spelling_cannot_dodge_geometry_on_a_folding_platform() {
    // `.DOCLI` is the control root under another spelling.
    let c = cfg(vec![mount(1, ".DOCLI")]);
    let err = validate_geometry(&c, &folded_places(&c), &project("/p"))
        .unwrap_err()
        .message(&c, &shown(&c));
    assert!(err.contains("control plane"), "{err}");
    // Case-varied overlap between mounts is the same alias.
    let c = cfg(vec![mount(1, "Notes"), mount(2, "notes/sub")]);
    let e = validate_geometry(&c, &folded_places(&c), &project("/p")).unwrap_err();
    assert_eq!(e, ConfigError::Overlap { mount: 0, other: 1 });
    let err = e.message(&c, &shown(&c));
    assert!(err.contains("overlap"), "{err}");
    // So are a composed and a decomposed spelling.
    let c = cfg(vec![mount(1, "\u{c9}"), mount(2, "E\u{301}/sub")]);
    let e = validate_geometry(&c, &folded_places(&c), &project("/p")).unwrap_err();
    assert_eq!(e, ConfigError::Overlap { mount: 0, other: 1 });
    let err = e.message(&c, &shown(&c));
    assert!(err.contains("overlap"), "{err}");
}

#[test]
fn spellings_are_apart_where_nothing_folds() {
    let c = cfg(vec![mount(1, "Notes"), mount(2, "notes/sub"), mount(3, ".DOCLI")]);
    validate_geometry(&c, &places("/p", &c), &project("/p")).unwrap();
}

#[test]
fn a_mount_inside_an_obsidian_vault_is_refused() {
    let c = cfg(vec![mount(1, "vault/notes")]);
    let mut at = places("/p", &c);
    at[0].in_vault = true;
    let e = validate_geometry(&c, &at, &project("/p")).unwrap_err();
    let err = e.message(&c, &shown(&c));
    assert!(err.contains("Obsidian vault"), "{err}");
    validate_config(&c).unwrap();
}

#[test]
fn loading_refuses_control_characters_anywhere_in_the_file() {
    let mut server = cfg(vec![]);
    server.server = "https://docli.ru/\u{1b}[2J".into();
    let mut name = cfg(vec![mount(1, "cache")]);
    name.mounts[0].name = Some("\u{1b}[2Jforged".into());
    let mut folder = cfg(vec![mount(1, "cache")]);
    folder.mounts[0].folder = Some("docs\u{1b}[2J".into());
    let dir = cfg(vec![mount(1, "ca\u{1b}che")]);
    for c in [server, name, folder, dir] {
        let kept = shown(&c);
        let again = DocliToml {
            server: c.server.clone(),
            mounts: Vec::new(),
            mcp_label: None,
        };
        let err = parse_config(c).unwrap_err().message(&again, &kept);
        assert!(err.contains("control character"), "{err}");
    }
    let mut ok = cfg(vec![mount(1, "cache")]);
    ok.mounts[0].name = Some("Документация".into());
    ok.server = "https://docli.ru//".into();
    let read = parse_config(ok).unwrap();
    assert_eq!(read.mounts[0].name.as_deref(), Some("Документация"));
    assert_eq!(read.server, "https://docli.ru");
}

#[test]
fn a_control_character_in_a_mount_dir_is_refused() {
    let c = cfg(vec![mount(1, "cache\n/src")]);
    let err = validate_config(&c).unwrap_err().message(&c, &shown(&c));
    assert!(err.contains("control character"), "{err}");
}

#[test]
fn an_impossible_folder_scope_is_refused() {
    for bad in [
        "docs//private",
        "../up",
        "a/./b",
        "back\\slash",
        "ctl\u{7}",
        " lead",
        "trail ",
        "a/ b",
    ] {
        let mut m = mount(1, "m");
        m.folder = Some(bad.to_string());
        let c = cfg(vec![m]);
        let err = validate_config(&c).unwrap_err().message(&c, &shown(&c));
        assert!(err.contains("folder scope is a relative"), "{bad}: {err}");
    }
    let mut long = mount(1, "m");
    long.folder = Some("я".repeat(130));
    assert!(validate_config(&cfg(vec![long])).is_err());
    let mut ok = mount(1, "m");
    ok.folder = Some("docs/приватное".to_string());
    validate_config(&cfg(vec![ok])).unwrap();
}

#[test]
fn a_git_worktree_mount_must_be_ignored() {
    let c = cfg(vec![mount(1, "mirror")]);
    let mut at = places("/p", &c);
    at[0].ignore = ignore_state(true, true, GitExit::Code(1));
    let e = validate_geometry(&c, &at, &project("/p")).unwrap_err();
    let err = e.message(&c, &shown(&c));
    assert!(err.contains("not git-ignored"), "{err}");
    validate_geometry_paths_only(&c, &at, &project("/p")).unwrap();
    at[0].ignore = ignore_state(true, true, GitExit::Code(0));
    validate_geometry(&c, &at, &project("/p")).unwrap();
    at[0].ignore = ignore_state(true, true, GitExit::NotRun);
    assert_eq!(
        validate_geometry(&c, &at, &project("/p")),
        Err(ConfigError::GitUnknown { mount: 0 })
    );
    at[0].ignore = IgnoreState::Covered;
    let mut p = project("/p");
    p.control_ignore = IgnoreState::Missing;
    let e = validate_geometry(&c, &at, &p).unwrap_err();
    assert_eq!(e, ConfigError::ControlNotIgnored);
    assert!(e.message(&c, &shown(&c)).contains("NOT git-ignored"));
    p.control_ignore = IgnoreState::Unknown;
    assert_eq!(
        validate_geometry(&c, &at, &p),
        Err(ConfigError::ControlGitUnknown)
    );
}

#[test]
fn a_path_outside_the_work_tree_needs_no_ignoring() {
    assert_eq!(
        ignore_state(false, true, GitExit::Code(1)),
        IgnoreState::NotInRepo
    );
    assert_eq!(
        ignore_state(true, false, GitExit::Code(1)),
        IgnoreState::Covered
    );
    assert_eq!(
        ignore_state(true, true, GitExit::Signal),
        IgnoreState::Unknown
    );
}

#[test]
fn a_table_without_mounts_and_its_names_are_refused() {
    let empty = cfg(vec![]);
    let e = validate_config(&empty).unwrap_err();
    assert_eq!(e, ConfigError::NoMounts);
    assert!(e.message(&empty, &shown(&empty)).contains("no [[mount]]"));
    let mut blank = cfg(vec![mount(1, "a")]);
    blank.mounts[0].name = Some("  ".into());
    assert_eq!(
        validate_config(&blank),
        Err(ConfigError::BlankName { mount: 0 })
    );
    let mut taken = cfg(vec![mount(1, "a"), mount(2, "b")]);
    taken.mounts[1].name = Some("00000000-0000-0000-0000-000000000001".into());
    let e = validate_config(&taken).unwrap_err();
    assert_eq!(e, ConfigError::IdCollision { mount: 1 });
    assert!(e
        .message(&taken, &shown(&taken))
        .contains("another mount's workspace id"));
}

#[test]
fn a_blank_directory_becomes_the_cache_of_the_workspace() {
    let mut c = cfg(vec![mount(1, ""), mount(2, "own")]);
    resolve_mount_dirs(&mut c, Some("/home/.docli/cache/")).unwrap();
    assert_eq!(
        c.mounts[0].dir,
        "/home/.docli/cache/00000000-0000-0000-0000-000000000001"
    );
    assert!(c.mounts[0].derived_dir);
    assert_eq!(c.mounts[1].dir, "own");
    assert!(!c.mounts[1].derived_dir);
    let first = c.mounts[0].dir.clone();
    resolve_mount_dirs(&mut c, Some("/other/")).unwrap();
    assert_eq!(c.mounts[0].dir, first, "resolving twice changes nothing");
    let mut homeless = cfg(vec![mount(1, "")]);
    assert_eq!(
        resolve_mount_dirs(&mut homeless, None),
        Err(ConfigError::NoHome)
    );
    let mut named = cfg(vec![mount(1, "own")]);
    resolve_mount_dirs(&mut named, None).unwrap();
}

#[test]
fn paths_are_normalized_without_a_look_at_the_disk() {
    assert_eq!(names(&lexical_normalize(&components("a/./b/../c"))), ["a", "c"]);
    assert_eq!(names(&lexical_normalize(&components("/../x"))), ["/", "x"]);
    assert_eq!(
        names(&mount_abs(&components("/p"), &components("m/../n"))),
        ["/", "p", "n"]
    );
    assert_eq!(
        names(&mount_abs(&components("/p"), &components("/abs"))),
        ["/", "abs"]
    );
    assert_eq!(
        path_below(&components("/p"), &components("/p/a/b")).as_deref(),
        Some("a/b")
    );
    assert_eq!(path_below(&components("/p"), &components("/q/a")), None);
}

#[test]
fn a_missing_path_resolves_through_its_nearest_ancestor() {
    let path: Vec<String> = ["/", "link", "m"].iter().map(|s| s.to_string()).collect();
    let real: Vec<String> = ["/", "repo", "inner"]
        .iter()
        .map(|s| s.to_string())
        .collect();
    assert_eq!(
        physicalize(&path, Some(2), Some(&real)),
        ["/", "repo", "inner", "m"]
    );
    assert_eq!(physicalize(&path, None, None), path);
    assert!(is_ancestor_or_self(&real, &physicalize(&path, Some(2), Some(&real))));
    assert!(is_ancestor_or_self(&real, &real));
    assert!(!is_ancestor_or_self(&path, &real));
}

#[test]
fn the_nearest_project_governs() {
    assert_eq!(find_project(&vec![false, true, true]), Some(1));
    assert_eq!(find_project(&vec![false]), None);
    assert_eq!(find_git_worktree(&vec![true, false]), Some(0));
}

#[test]
fn only_names_are_folded() {
    let path = components("/Tmp/Sub");
    let folded = vec!["?".to_string(), "tmp".to_string(), "sub".to_string()];
    assert_eq!(geometry_key(&path, Some(&folded)), vec!["/", "tmp", "sub"]);
    assert_eq!(geometry_key(&path, None), vec!["/", "Tmp", "Sub"]);
}

#[test]
fn a_git_that_gave_no_answer_is_put_in_words() {
    assert_eq!(git_fault(GitExit::Code(0), "/w", ""), None);
    assert_eq!(git_fault(GitExit::Code(1), "/w", ""), None);
    let e = git_fault(GitExit::Code(128), "/w", "").unwrap();
    assert!(e.starts_with("`git check-ignore` in /w exited with code 128 - "), "{e}");
    assert!(e.contains("\n  git config --global --add safe.directory /w\n"), "{e}");
    let e = git_fault(GitExit::Signal, "/w", "").unwrap();
    assert!(e.contains("exited with code a signal - "), "{e}");
    let e = git_fault(GitExit::NotRun, "/w", "no such file").unwrap();
    assert!(e.contains("`git` could not be run (no such file)"), "{e}");
}

#[test]
fn a_mount_in_the_control_directory_needs_no_line_of_its_own() {
    assert_eq!(ignore_lines(true, "m"), "  .docli/");
    assert_eq!(ignore_lines(false, "m"), "  m/\n  .docli/");
}
