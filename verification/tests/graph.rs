use docli_cli::graph::rank;
use docli_cli::graph::Graph;
use docli_cli::graph::GraphEdge;
use docli_cli::graph::GraphNode;
use docli_cli::graph::GraphTag;
use docli_cli::graph::NoteRef;
use docli_cli::graph::Order;
use docli_cli::graph::WireGraph;

const KEYS: [&str; 7] = ["a", "b", "c", "t", "p", "q", "z"];

fn id(key: &str) -> u128 {
    100 + KEYS.iter().position(|k| *k == key).unwrap() as u128
}

fn at(key: &str) -> u32 {
    (id(key) - 100) as u32
}

fn node(key: &str, kind: &str, path: &str, trashed: bool) -> GraphNode {
    GraphNode {
        id: id(key),
        kind: kind.to_string(),
        name: path.rsplit('/').next().unwrap().to_string(),
        path: path.to_string(),
        title: None,
        aliases: Vec::new(),
        mime: None,
        content_bytes: 0,
        trashed,
    }
}

fn edge(src: &str, dst: Option<&str>, att: Option<&str>, text: &str, kind: &str) -> GraphEdge {
    GraphEdge {
        src: at(src),
        dst: dst.map(at),
        att: att.map(at),
        dst_ref: text.to_string(),
        kind: kind.to_string(),
        anchor: None,
    }
}

fn tag(key: &str, text: &str) -> GraphTag {
    GraphTag { node: at(key), tag: text.to_string() }
}

/// Three live notes, one in the trash, a live attachment and one in the trash, and a note that
/// nothing links.
fn graph() -> Graph {
    let mut a = node("a", "file", "notes/alpha.md", false);
    a.title = Some("Alpha note".to_string());
    a.aliases = vec!["Alpha".to_string(), "Первая".to_string()];
    let mut p = node("p", "attachment", "files/p.png", false);
    p.mime = Some("image/png".to_string());
    p.content_bytes = 99;
    Graph::new(WireGraph {
        nodes: vec![
            a,
            node("b", "file", "notes/beta.md", false),
            node("c", "file", "aaa.md", false),
            node("t", "file", "notes/gone.md", true),
            p,
            node("q", "attachment", "files/q.png", true),
            node("z", "file", "zed.md", false),
        ],
        edges: vec![
            edge("a", Some("b"), None, "beta", "wikilink"),
            edge("a", Some("b"), None, "beta again", "wikilink"),
            edge("a", Some("a"), None, "alpha", "wikilink"),
            edge("a", Some("t"), None, "gone", "wikilink"),
            edge("a", None, Some("p"), "p.png", "embed"),
            edge("a", None, Some("q"), "q.png", "embed"),
            edge("a", None, None, "Nowhere", "wikilink"),
            edge("a", None, None, "another", "markdown"),
            edge("a", None, None, "Nowhere", "wikilink"),
            edge("a", None, None, "", "wikilink"),
            edge("a", None, None, "missing.png", "embed"),
            edge("c", Some("b"), None, "beta", "markdown"),
            edge("t", Some("b"), None, "beta", "wikilink"),
            edge("t", None, Some("p"), "p.png", "embed"),
            edge("c", None, Some("q"), "q.png", "embed"),
        ],
        tags: vec![tag("a", "work"), tag("a", "alpha"), tag("a", "work"), tag("t", "work")],
    })
}

fn ids(v: Vec<NoteRef>) -> Vec<u128> {
    v.into_iter().map(|n| n.id).collect()
}

#[test]
fn the_identity_row_carries_title_and_aliases_and_file_facts() {
    let g = graph();
    let a = g.node(id("a")).unwrap();
    assert_eq!(a.title.as_deref(), Some("Alpha note"));
    assert_eq!(a.aliases, vec!["Alpha", "Первая"]);
    let p = g.node(id("p")).unwrap();
    assert_eq!(p.mime.as_deref(), Some("image/png"));
    assert_eq!(p.content_bytes, 99);
    let embeds = g.attachment_embeds(id("a"));
    assert_eq!(embeds.len(), 1);
    assert_eq!(embeds[0].mime.as_deref(), Some("image/png"));
    assert_eq!(embeds[0].size, 99);
}

#[test]
fn an_unknown_id_answers_empty_everywhere() {
    let g = graph();
    let ghost = 999;
    assert!(g.node(ghost).is_none());
    assert!(g.idx(ghost).is_none());
    assert!(g.backlinks(ghost).is_empty());
    assert!(g.forward_links(ghost).is_empty());
    assert!(g.attachment_embeds(ghost).is_empty());
    assert!(g.attachment_embedders(ghost).is_empty());
    assert!(g.unresolved_refs(ghost).is_empty());
    assert!(g.tags(ghost).is_empty());
}

#[test]
fn backlinks_are_live_distinct_and_keep_the_note_itself() {
    let g = graph();
    assert_eq!(ids(g.backlinks(id("b"))), vec![id("c"), id("a")]);
    assert_eq!(ids(g.backlinks(id("a"))), vec![id("a")]);
    assert_eq!(ids(g.backlinks(id("t"))), vec![id("a")]);
    assert!(g.backlinks(id("z")).is_empty());
}

#[test]
fn forward_links_leave_the_note_itself_and_the_trash_out() {
    let g = graph();
    assert_eq!(
        g.forward_links(id("a")),
        vec![NoteRef {
            id: id("b"),
            name: "beta.md".to_string(),
            path: "notes/beta.md".to_string()
        }]
    );
    assert_eq!(ids(g.forward_links(id("t"))), vec![id("b")], "the source may be in the trash");
}

#[test]
fn embeds_ask_for_both_ends_and_embedders_for_one() {
    let g = graph();
    assert!(g.attachment_embeds(id("t")).is_empty(), "a trashed note embeds nothing");
    assert_eq!(ids(g.attachment_embedders(id("p"))), vec![id("a")]);
    assert_eq!(
        ids(g.attachment_embedders(id("q"))),
        vec![id("c"), id("a")],
        "the attachment may be in the trash"
    );
}

#[test]
fn dangling_targets_are_listed_once_without_embeds_and_blanks() {
    let g = graph();
    assert_eq!(g.unresolved_refs(id("a")), vec!["Nowhere", "another"]);
    assert!(g.unresolved_refs(id("b")).is_empty());
}

#[test]
fn tags_are_alphabetical_and_the_trash_has_none() {
    let g = graph();
    assert_eq!(g.tags(id("a")), vec!["alpha", "work"]);
    assert!(g.tags(id("t")).is_empty());
}

#[test]
fn the_last_node_of_an_id_is_the_one_that_is_found() {
    let mut twin = node("a", "file", "second.md", false);
    twin.id = 7;
    let mut first = node("a", "file", "first.md", false);
    first.id = 7;
    let g = Graph::new(WireGraph { nodes: vec![first, twin], edges: vec![], tags: vec![] });
    assert_eq!(g.idx(7), Some(1));
    assert_eq!(g.node(7).unwrap().path, "second.md");
    assert_eq!(g.held().nodes.len(), 2);
}

#[test]
fn the_two_orders_differ_on_a_directory_and_its_longer_sibling() {
    let nodes = vec![
        node("a", "folder", "a-b", false),
        node("b", "file", "a/child.md", false),
        node("c", "folder", "a", false),
    ];
    assert_eq!(rank(&nodes, Order::Path, &vec![0, 1, 2]), vec![2, 0, 1]);
    assert_eq!(rank(&nodes, Order::Parts, &vec![0, 1, 2]), vec![2, 1, 0]);
}
