use docli_cli::config::Mount;
use docli_cli::graph::Graph;
use docli_cli::graph::GraphNode;
use docli_cli::graph::GraphTag;
use docli_cli::graph::WireGraph;
use docli_cli::graph_cmd::answer;
use docli_cli::graph_cmd::parent_of;
use docli_cli::graph_cmd::render;
use docli_cli::graph_cmd::rows;
use docli_cli::graph_cmd::run;
use docli_cli::graph_cmd::tag_rows;
use docli_cli::graph_cmd::wanted_folder;
use docli_cli::graph_cmd::GraphSlot;
use docli_cli::graph_cmd::MountAnswer;
use docli_cli::graph_cmd::Shown;
use docli_cli::graph_cmd::StateRead;
use docli_cli::graph_cmd::Verb;
use docli_cli::report::plain_text;
use docli_cli::report::Notice;
use docli_cli::state::NodeState;
use docli_cli::state::Spot;
use docli_cli::state::TrackedKind;
use docli_cli::state::WsState;

fn node(n: u128, kind: &str, path: &str, trashed: bool) -> GraphNode {
    GraphNode {
        id: n,
        kind: kind.to_string(),
        name: path.rsplit('/').next().unwrap().to_string(),
        path: path.to_string(),
        title: None,
        aliases: vec![],
        mime: None,
        content_bytes: 0,
        trashed,
    }
}

fn tag(node: u32, tag: &str) -> GraphTag {
    GraphTag { node, tag: tag.to_string() }
}

fn graph() -> Graph {
    Graph::new(WireGraph {
        nodes: vec![
            node(1, "folder", "docs", false),
            node(2, "file", "docs/a.md", false),
            node(3, "file", "docs/b.md", false),
            node(4, "file", "root.md", false),
            node(5, "file", "docs/gone.md", true),
            node(6, "attachment", "docs/p.png", false),
        ],
        edges: vec![],
        tags: vec![tag(1, "work"), tag(2, "work"), tag(2, "проект"), tag(3, "work"), tag(4, "work")],
    })
}

fn mount() -> Mount {
    Mount {
        workspace: 1,
        dir: "mirror".to_string(),
        derived_dir: false,
        folder: None,
        name: Some("m".to_string()),
    }
}

/// A state that holds every node but `docs/b.md`.
fn state() -> WsState {
    let mut s = WsState::fresh();
    for id in [1u128, 2, 4, 6] {
        let spot = || Spot { path: id.to_string(), fold: id.to_string() };
        s.nodes.insert(
            id,
            NodeState {
                server_path: id.to_string(),
                local: spot(),
                kind: TrackedKind::Note,
                rev: 1,
                content_sha256: String::new(),
                marker: None,
            },
        );
    }
    s
}

fn held(unusable: Option<&str>) -> StateRead {
    StateRead::Read {
        state: state(),
        graph: GraphSlot::Held(graph()),
        unusable: unusable.map(|s| s.to_string()),
    }
}

fn ls(folder: Option<&str>) -> Verb {
    Verb::Ls { folder: folder.map(|s| s.to_string()) }
}

/// What is shown of an answer, with nothing in it that would have to be cleaned.
fn shown(a: &MountAnswer, verb: &Verb) -> Shown {
    let rows = a.rows.as_ref().map(|v| {
        v.iter()
            .map(|r| if matches!(verb, Verb::Tree) { r.name.clone() } else { r.path.clone() })
            .collect()
    });
    Shown {
        mount: a.mount.clone(),
        rows: rows.unwrap_or_default(),
        tags: a
            .tags
            .as_ref()
            .map(|v| v.iter().map(|t| t.tag.clone()).collect())
            .unwrap_or_default(),
    }
}

fn lines(v: &Vec<Notice>) -> Vec<String> {
    v.iter()
        .map(|n| match n {
            Notice::Styled(s) => plain_text(s),
            Notice::Heading(s)
            | Notice::Line(s)
            | Notice::Done(s)
            | Notice::Detail(s)
            | Notice::Warn(s)
            | Notice::Refuse(s)
            | Notice::Next(s) => s.clone(),
        })
        .collect()
}

fn screen(verb: &Verb, read: &StateRead) -> (Vec<String>, i32) {
    let a = answer(&mount(), verb, read, "");
    let s = shown(&a, verb);
    let (said, code) = run(&vec![a], verb, 1, &vec![s], false);
    (lines(&said), code)
}

#[test]
fn the_exit_code_does_not_depend_on_the_output_mode() {
    let code = |json: bool| {
        let a = answer(&mount(), &Verb::Tree, &StateRead::NeverSynced, "");
        let s = shown(&a, &Verb::Tree);
        run(&vec![a], &Verb::Tree, 1, &vec![s], json).1
    };
    let plain = code(false);
    let machine = code(true);
    assert_eq!((plain, machine), (1, 1));
}

#[test]
fn ls_lists_a_folders_live_children_and_marks_what_is_not_mirrored() {
    let g = graph();
    let held = |id: u128| id != 3;
    let docs = rows(&g, &ls(Some("docs/")), held);
    let paths: Vec<&str> = docs.iter().map(|r| r.path.as_str()).collect();
    assert_eq!(paths, vec!["docs/a.md", "docs/b.md", "docs/p.png"], "no trashed, no root");
    assert!(docs[0].mirrored && !docs[1].mirrored);
    let root = rows(&g, &ls(None), held);
    let paths: Vec<&str> = root.iter().map(|r| r.path.as_str()).collect();
    assert_eq!(paths, vec!["docs", "root.md"]);
}

#[test]
fn rows_order_by_path_components_so_a_tree_nests_correctly() {
    let g = Graph::new(WireGraph {
        nodes: vec![
            node(1, "folder", "a", false),
            node(2, "folder", "a-b", false),
            node(3, "file", "a/child.md", false),
            node(4, "file", "a-b/other.md", false),
        ],
        edges: vec![],
        tags: vec![],
    });
    let paths: Vec<String> = rows(&g, &Verb::Tree, |_| true).into_iter().map(|r| r.path).collect();
    assert_eq!(paths, vec!["a", "a/child.md", "a-b", "a-b/other.md"]);
}

#[test]
fn tree_tags_and_tagged_answer_from_the_graph() {
    let g = graph();
    let all = rows(&g, &Verb::Tree, |_| true);
    assert_eq!(all.len(), 5, "every live node, trashed excluded");
    let tags = tag_rows(&g);
    assert_eq!(tags.len(), 2);
    assert_eq!((tags[0].tag.as_str(), tags[0].notes), ("work", 3));
    assert_eq!((tags[1].tag.as_str(), tags[1].notes), ("проект", 1));
    let tagged = rows(&g, &Verb::Tagged { tag: "work".to_string() }, |_| true);
    let paths: Vec<&str> = tagged.iter().map(|r| r.path.as_str()).collect();
    assert_eq!(paths, vec!["docs/a.md", "docs/b.md", "root.md"]);
    assert_eq!(tagged[1].tags, vec!["work", "проект"]);
}

#[test]
fn a_parent_is_what_stands_before_the_last_slash() {
    assert_eq!(parent_of("a/b/c.md"), "a/b");
    assert_eq!(parent_of("c.md"), "");
    assert_eq!(wanted_folder(&Some("//docs/sub/".to_string())), "docs/sub");
    assert_eq!(wanted_folder(&None), "");
}

#[test]
fn a_missing_folder_is_not_an_empty_one() {
    let a = answer(&mount(), &ls(Some("nope/")), &held(None), "nope");
    assert_eq!(
        a.absent.as_deref(),
        Some("no folder `nope` in the held graph (paths are exact; `docli tree` lists them)")
    );
    assert!(a.rows.is_none() && a.tags.is_none());
    assert_eq!(screen(&ls(Some("/")), &held(None)).1, 0, "the root always exists");
}

#[test]
fn what_could_not_be_read_is_said() {
    let broken = answer(&mount(), &Verb::Tags, &StateRead::Unreadable("boom".to_string()), "");
    assert_eq!(
        broken.absent.as_deref(),
        Some(
            "the local mirror state could not be read (boom) - `docli sync --full` rebuilds it"
        )
    );
    let absent = StateRead::Read {
        state: state(),
        graph: GraphSlot::Absent("no graph here".to_string()),
        unusable: Some("stale".to_string()),
    };
    let a = answer(&mount(), &Verb::Tree, &absent, "");
    assert_eq!(a.absent.as_deref(), Some("no graph here"));
    assert!(a.disclosures.is_empty());
    assert_eq!(
        answer(&mount(), &Verb::Tree, &StateRead::NeverSynced, "").absent.as_deref(),
        Some("this mount has never been synced - run `docli sync`")
    );
}

#[test]
fn a_tree_is_indented_and_marked() {
    let (said, code) = screen(&Verb::Tree, &held(Some("the mirror is stale")));
    assert_eq!(code, 0);
    assert_eq!(
        said,
        vec![
            "the mirror is stale".to_string(),
            "docs/".to_string(),
            "  a.md".to_string(),
            "  b.md  (not mirrored here)".to_string(),
            "  p.png  [file]".to_string(),
            "root.md".to_string(),
            "1 row not mirrored here (outside the mount's folder scope, or a kind this mirror \
             does not store) - widen the mount with `docli init --folder`, or read them with \
             `read_note` over the docli MCP connection"
                .to_string(),
        ]
    );
}

#[test]
fn tags_are_shown_with_their_counts_and_on_their_notes() {
    let (said, _) = screen(&Verb::Tags, &held(None));
    assert_eq!(said, vec!["work    3 notes", "проект  1 note"]);
    let (said, _) = screen(&Verb::Tagged { tag: "проект".to_string() }, &held(None));
    assert_eq!(said[0], "docs/b.md  #work #проект  (not mirrored here)");
    let (said, _) = screen(&Verb::Tagged { tag: "nothing".to_string() }, &held(None));
    assert_eq!(said, vec!["nothing here"]);
}

#[test]
fn a_mount_is_named_only_among_several() {
    let a = answer(&mount(), &Verb::Tags, &StateRead::NeverSynced, "");
    let s = shown(&a, &Verb::Tags);
    let said = render(&a, &Verb::Tags, true, &s);
    assert_eq!(said[0], Notice::Heading("[m]".to_string()));
    assert!(matches!(said[1], Notice::Warn(_)));
    assert_eq!(said.len(), 2);
    let (two, code) = run(&vec![a], &Verb::Tags, 2, &vec![s], false);
    assert_eq!(two[0], Notice::Heading("[m]".to_string()));
    assert_eq!(code, 1);
}
