use docli_cli::config::DocliToml;
use docli_cli::config::Mount;
use docli_cli::http::WorkspaceInfo;
use docli_cli::list_cmd::render;
use docli_cli::list_cmd::row_line;
use docli_cli::list_cmd::rows;
use docli_cli::list_cmd::Row;
use docli_cli::report::plain_text;
use docli_cli::report::Notice;

fn row(mounted: bool, at: Option<&str>, folder: Option<&str>) -> Row {
    Row {
        id: "cd2f1093-4219-4d68-8d2c-dfe7d5125b72".to_string(),
        handle: "docli".to_string(),
        name: "docli".to_string(),
        mounted,
        mounted_at: at.map(|s| s.to_string()),
        folder: folder.map(|s| s.to_string()),
    }
}

fn line(r: &Row) -> String {
    plain_text(&row_line(r, 8, 8, "->"))
}

#[test]
fn a_derived_mount_publishes_no_directory_and_an_explicit_one_does() {
    let derived = line(&row(true, None, None));
    assert!(
        !derived.contains(".docli"),
        "a derived mount must not print its cache path: {derived}"
    );
    assert!(derived.contains('*'), "…but it is still marked mounted: {derived}");

    let scoped = line(&row(true, None, Some("docs")));
    assert!(scoped.contains("(docs)"), "{scoped}");
    assert!(!scoped.contains(".docli"), "{scoped}");

    let explicit = line(&row(true, Some("mirror"), None));
    assert!(explicit.contains("mirror"), "{explicit}");

    let unmounted = line(&row(false, None, None));
    assert!(!unmounted.contains('*'), "{unmounted}");
}

fn space(id: u128, handle: &str) -> WorkspaceInfo {
    WorkspaceInfo { id, handle: handle.to_string(), name: handle.to_uppercase() }
}

fn mount(workspace: u128, dir: &str, derived: bool, folder: Option<&str>) -> Mount {
    Mount {
        workspace,
        dir: dir.to_string(),
        derived_dir: derived,
        folder: folder.map(|s| s.to_string()),
        name: None,
    }
}

fn config(server: &str) -> Option<DocliToml> {
    Some(DocliToml {
        server: server.to_string(),
        mounts: vec![mount(1, "mirror", false, Some("docs")), mount(2, ".docli/x", true, None)],
        mcp_label: None,
    })
}

#[test]
fn a_row_tells_where_a_workspace_is_mounted() {
    let spaces = vec![space(1, "one"), space(2, "two"), space(3, "three")];
    let all = rows(&spaces, &config("https://docli.ru/"), "https://docli.ru");
    assert_eq!(all[0].id, "00000000-0000-0000-0000-000000000001");
    assert!(all[0].mounted);
    assert_eq!(all[0].mounted_at.as_deref(), Some("mirror"));
    assert_eq!(all[0].folder.as_deref(), Some("docs"));
    assert!(all[1].mounted);
    assert_eq!(all[1].mounted_at, None);
    assert!(!all[2].mounted);
}

#[test]
fn a_project_on_another_server_mounts_nothing_here() {
    let spaces = vec![space(1, "one")];
    assert!(!rows(&spaces, &config("https://other.example"), "https://docli.ru")[0].mounted);
    assert!(!rows(&spaces, &None, "https://docli.ru")[0].mounted);
}

#[test]
fn the_columns_are_as_wide_as_what_they_hold() {
    let spaces = vec![space(1, "one"), space(3, "three")];
    let all = rows(&spaces, &config("https://docli.ru"), "https://docli.ru");
    let (said, code) = render(&all, false, "->");
    assert_eq!(code, 0);
    let text: Vec<String> = said
        .iter()
        .map(|n| match n {
            Notice::Styled(s) => plain_text(s),
            Notice::Heading(s) | Notice::Detail(s) => s.clone(),
            other => panic!("{other:?}"),
        })
        .collect();
    assert_eq!(text[0], "Workspaces");
    assert!(text[1].starts_with("* @one  "), "{text:?}");
    assert!(text[2].starts_with("  @three"), "{text:?}");
    assert_eq!(text[3], "* - mirrored in this project (1 of 2)");
}

#[test]
fn an_account_without_workspaces_is_told_so() {
    let (said, code) = render(&vec![], false, "->");
    assert_eq!(code, 1);
    assert!(!said.is_empty());
    let (said, code) = render(&vec![], true, "->");
    assert_eq!(code, 1);
    assert!(said.is_empty());
}

#[test]
fn nothing_mounted_leads_to_init() {
    let all = rows(&vec![space(9, "nine")], &None, "https://docli.ru");
    let (said, _) = render(&all, false, "->");
    match said.last() {
        Some(Notice::Next(s)) => assert!(s.contains("docli init"), "{s}"),
        other => panic!("{other:?}"),
    }
}
