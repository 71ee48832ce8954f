use docli_cli::localpath::component_units;
use docli_cli::localpath::has_reserved_segment;
use docli_cli::localpath::in_docli_namespace;
use docli_cli::localpath::project;
use docli_cli::localpath::scope_relative;
use docli_cli::localpath::FsRules;
use docli_cli::localpath::ProjectError;

fn win_rules() -> FsRules {
    FsRules {
        fold_case_insensitive: true,
        win_names: true,
        max_component_bytes: 255,
    }
}

#[test]
fn scope_stripping_maps_the_subtree_to_the_mount_root() {
    assert_eq!(scope_relative("docs/a.md", Some("docs")), Some("a.md"));
    assert_eq!(scope_relative("docs", Some("docs")), Some(""));
    assert_eq!(scope_relative("elsewhere/a.md", Some("docs")), None);
    assert_eq!(scope_relative("docs2/a.md", Some("docs")), None);
    assert_eq!(scope_relative("a.md", None), Some("a.md"));
}

#[test]
fn a_stripped_path_is_the_folder_and_the_rest() {
    let path = "docs/deep/ключ.md";
    let inside = scope_relative(path, Some("docs/deep")).unwrap();
    assert_eq!(format!("docs/deep/{inside}"), path);
}

#[test]
fn windows_measures_utf16_units_not_utf8_bytes() {
    let name = format!("{}.md", "Ж".repeat(130));
    assert!(project(&name, &name, &win_rules()).is_ok());
    let unix = FsRules {
        win_names: false,
        ..win_rules()
    };
    assert!(matches!(
        project(&name, &name, &unix).unwrap_err(),
        ProjectError::ComponentTooLong { .. }
    ));
}

#[test]
fn projection_parks_a_component_past_the_byte_cap() {
    // Where names follow the Windows rules a colon is spelled `%3A`.
    let long = format!("{}.md", ":".repeat(120));
    let encoded = format!("{}.md", "%3A".repeat(120));
    let err = project(&long, &encoded, &win_rules()).unwrap_err();
    assert!(matches!(err, ProjectError::ComponentTooLong { .. }));
    assert!(project(
        &long,
        &encoded,
        &FsRules {
            win_names: false,
            ..win_rules()
        }
    )
    .is_ok());
}

#[test]
fn the_first_component_that_is_too_long_is_named() {
    let rules = FsRules {
        fold_case_insensitive: false,
        win_names: false,
        max_component_bytes: 4,
    };
    assert_eq!(project("abcd/efgh", "", &rules), Ok("abcd/efgh".to_string()));
    assert_eq!(
        project("ab/five5/sixsix", "", &rules),
        Err(ProjectError::ComponentTooLong {
            component: "five5".to_string()
        })
    );
}

#[test]
fn an_error_names_the_component_in_quotes() {
    let e = ProjectError::ComponentTooLong { component: "a\"b".to_string() };
    assert_eq!(e.message(), "ComponentTooLong { component: \"a\\\"b\" }");
}

#[test]
fn a_component_is_measured_in_the_unit_of_its_filesystem() {
    let unix = FsRules {
        win_names: false,
        ..win_rules()
    };
    assert_eq!(component_units("a😀", &win_rules()), 3);
    assert_eq!(component_units("a😀", &unix), 5);
}

#[test]
fn docli_namespace_covers_interior_segments_and_attachment_names() {
    assert!(in_docli_namespace(".docli"));
    assert!(in_docli_namespace("foo.docli/child.md"));
    assert!(in_docli_namespace("a/x.png.docli"));
    assert!(
        in_docli_namespace("MOUNT.DOCLI"),
        "case-insensitive like the server guard"
    );
    assert!(!in_docli_namespace("docli/notes.md"));
    assert!(!in_docli_namespace("a/doclix/b.md"));
}

#[test]
fn reserved_names_are_told_in_any_case_and_any_segment() {
    assert!(has_reserved_segment("a/.Git/config"));
    assert!(has_reserved_segment(".OBSIDIAN"));
    assert!(has_reserved_segment("notes/.trash/x.md"));
    assert!(!has_reserved_segment("a/.github/x.md"));
}
