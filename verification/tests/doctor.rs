use docli_cli::doctor::doctor_mount;
use docli_cli::doctor::exit_code;
use docli_cli::doctor::expectations;
use docli_cli::doctor::id_at_local;
use docli_cli::doctor::never_synced;
use docli_cli::doctor::refused;
use docli_cli::doctor::render;
use docli_cli::doctor::render_json;
use docli_cli::doctor::scan_fault;
use docli_cli::doctor::Discrepancy;
use docli_cli::doctor::DiskEntry;
use docli_cli::doctor::Findings;
use docli_cli::doctor::Leaf;
use docli_cli::doctor::MountReport;
use docli_cli::doctor::Probe;
use docli_cli::doctor::Progress;
use docli_cli::doctor::Refusal;
use docli_cli::doctor::ScanFault;
use docli_cli::doctor::ServerNode;
use docli_cli::doctor::ServerTree;
use docli_cli::doctor::TreeStep;
use docli_cli::doctor::PAGE_LIMIT;
use docli_cli::http::ApiFailure;
use docli_cli::localpath::FsRules;
use docli_cli::page::Place;
use docli_cli::state::NodeState;
use docli_cli::state::Park;
use docli_cli::state::ParkClass;
use docli_cli::state::Spot;
use docli_cli::state::TrackedKind;
use docli_cli::state::WsState;

const WS: u128 = 0xF;

fn rules() -> FsRules {
    FsRules { fold_case_insensitive: true, win_names: false, max_component_bytes: 255 }
}

fn spot(path: &str) -> Spot {
    Spot { path: path.to_string(), fold: path.to_lowercase() }
}

fn server(id: u128, kind: &str, path: &str, body: Option<&str>) -> ServerNode {
    ServerNode {
        id,
        kind: kind.to_string(),
        path: path.to_string(),
        trashed: false,
        body: body.map(|s| s.to_string()),
        note_named: path.ends_with(".md"),
        encoded: path.to_string(),
        fold: path.to_lowercase(),
        marker_fold: format!("{}.docli", path.to_lowercase()),
        marker_text: "marker".to_string(),
    }
}

fn tree(nodes: Vec<ServerNode>) -> ServerTree {
    let mut t = ServerTree::new();
    let live = nodes.len() as i64;
    assert_eq!(t.take_page(&nodes, Some(live)), TreeStep::Complete);
    t
}

fn remembered(kind: TrackedKind, path: &str, marker: Option<&str>) -> NodeState {
    NodeState {
        server_path: path.to_string(),
        local: spot(path),
        kind,
        rev: 1,
        content_sha256: String::new(),
        marker: marker.map(spot),
    }
}

fn disk(path: &str, is_dir: bool) -> DiskEntry {
    DiskEntry {
        path: path.to_string(),
        fold: path.to_lowercase(),
        is_dir,
        write_temp: path.contains(".docli-write-"),
    }
}

fn nothing() -> Findings {
    Findings { probes: vec![], disk: vec![], leaves: vec![] }
}

fn classes(v: &Vec<Discrepancy>) -> Vec<(&str, &str)> {
    v.iter().map(|d| (d.class, d.path.as_str())).collect()
}

/// A mirror that was taken to its end.
const DONE: Progress = Progress { from_zero: false, at_head: true };

fn account(state: &WsState, t: &ServerTree, f: &Findings) -> Vec<Discrepancy> {
    doctor_mount("mirror", state, true, DONE, WS, None, &rules(), t, &vec!["MOUNT.docli".to_string()], f)
}

/// A mirror of a folder, a note and an attachment that is as it should be.
fn sound() -> (WsState, ServerTree, Findings) {
    let mut s = WsState::fresh();
    s.nodes.insert(1, remembered(TrackedKind::Folder, "d", None));
    s.nodes.insert(2, remembered(TrackedKind::Note, "d/a.md", None));
    s.nodes.insert(3, remembered(TrackedKind::Attachment, "p.png", Some("p.png.docli")));
    let t = tree(vec![
        server(1, "folder", "d", None),
        server(2, "file", "d/a.md", Some("body")),
        server(3, "attachment", "p.png", None),
    ]);
    let f = Findings {
        probes: vec![
            Probe::Directory,
            Probe::File(b"body".to_vec()),
            Probe::File(b"marker".to_vec()),
        ],
        disk: vec![
            disk("MOUNT.docli", false),
            disk("d", true),
            disk("d/a.md", false),
            disk("p.png.docli", false),
        ],
        leaves: vec![],
    };
    (s, t, f)
}

#[test]
fn a_sound_mirror_has_no_findings() {
    let (s, t, f) = sound();
    assert!(account(&s, &t, &f).is_empty());
}

#[test]
fn what_is_expected_follows_the_ids() {
    let (s, t, _) = sound();
    let es = expectations(&s, WS, None, &rules(), &t);
    let all: Vec<(u128, &str)> = es.iter().map(|e| (e.id, e.spot.path.as_str())).collect();
    assert_eq!(all, vec![(1, "d"), (2, "d/a.md"), (3, "p.png.docli")]);
    assert!(matches!(&es[2].place, Some(Place::Mount(p)) if p == "p.png.docli"));
    assert_eq!(id_at_local(&s, "d/a.md"), Some(2));
    assert_eq!(id_at_local(&s, "nowhere"), None);
}

#[test]
fn a_hand_edit_is_seen_by_its_digest() {
    let (s, t, mut f) = sound();
    f.probes[1] = Probe::File(b"edited".to_vec());
    assert_eq!(classes(&account(&s, &t, &f)), vec![("digest-mismatch", "d/a.md")]);
}

#[test]
fn what_is_gone_from_disk_is_missing() {
    let (s, t, mut f) = sound();
    f.probes = vec![Probe::Absent, Probe::Directory, Probe::Absent];
    let rows = account(&s, &t, &f);
    assert_eq!(
        classes(&rows),
        vec![("missing-local", "d"), ("missing-local", "d/a.md"), ("missing-local", "p.png.docli")]
    );
    assert_eq!(rows[0].detail, "folder d is not in the mirror");
    assert_eq!(rows[1].detail, "note d/a.md is not in the mirror");
    assert_eq!(rows[2].detail, "marker for p.png is not in the mirror");
}

#[test]
fn a_marker_that_differs_has_drifted() {
    let (s, t, mut f) = sound();
    f.probes[2] = Probe::File(b"other".to_vec());
    assert_eq!(classes(&account(&s, &t, &f)), vec![("marker-drift", "p.png.docli")]);
}

#[test]
fn another_id_at_a_path_is_told() {
    let (mut s, t, f) = sound();
    let moved = s.nodes.remove(&2).unwrap();
    s.nodes.insert(9, moved);
    let rows = account(&s, &t, &f);
    assert_eq!(classes(&rows), vec![("id-mismatch", "d/a.md"), ("state-orphan", "d/a.md")]);
    assert_eq!(
        rows[0].detail,
        "state tracks 00000000-0000-0000-0000-000000000009, the server says \
         00000000-0000-0000-0000-000000000002"
    );
}

#[test]
fn a_file_that_the_state_does_not_track_is_told() {
    let (mut s, t, f) = sound();
    s.nodes.remove(&2);
    s.nodes.remove(&1);
    assert_eq!(
        classes(&account(&s, &t, &f)),
        vec![("untracked", "d"), ("untracked", "d/a.md")]
    );
}

#[test]
fn strangers_on_disk_are_told_by_what_they_are() {
    let (s, t, mut f) = sound();
    f.disk.push(disk("stray", true));
    f.disk.push(disk("stray/mine.txt", false));
    f.disk.push(disk("d/.docli-write-1.tmp", false));
    f.leaves.push(Leaf { name: "x.docli".to_string(), write_temp: false });
    f.leaves.push(Leaf { name: ".docli-write-2.tmp".to_string(), write_temp: true });
    assert_eq!(
        classes(&account(&s, &t, &f)),
        vec![
            ("missing-remote", "stray"),
            ("missing-remote", "stray/mine.txt"),
            ("crash-residue", "d/.docli-write-1.tmp"),
            ("missing-remote", ".docli/markers/00000000-0000-0000-0000-00000000000f/x.docli"),
            (
                "crash-residue",
                ".docli/markers/00000000-0000-0000-0000-00000000000f/.docli-write-2.tmp"
            ),
        ]
    );
}

#[test]
fn a_respelled_entry_is_no_stranger() {
    let (s, t, mut f) = sound();
    f.disk[2] = disk("D/A.md", false);
    assert!(account(&s, &t, &f).is_empty());
}

#[test]
fn two_nodes_on_one_file_collide_and_the_remembered_one_keeps_it() {
    let mut s = WsState::fresh();
    s.nodes.insert(2, remembered(TrackedKind::Note, "foo.md", None));
    let t = tree(vec![
        server(1, "file", "Foo.md", Some("x")),
        server(2, "file", "foo.md", Some("x")),
    ]);
    let f = Findings {
        probes: vec![Probe::File(b"x".to_vec()), Probe::File(b"x".to_vec())],
        disk: vec![disk("foo.md", false)],
        leaves: vec![],
    };
    let rows = account(&s, &t, &f);
    assert_eq!(classes(&rows), vec![("untracked", "Foo.md"), ("fold-collision", "Foo.md")]);
    assert!(rows[1].detail.contains("00000000-0000-0000-0000-000000000002"));
}

#[test]
fn a_park_is_the_whole_report_on_its_node() {
    let (mut s, t, f) = sound();
    s.nodes.remove(&2);
    s.parks.insert(
        2,
        Park {
            class: ParkClass::Lasting,
            reason: "twin".to_string(),
            server_path: "d/a.md".to_string(),
        },
    );
    let mut f = f;
    f.probes.remove(1);
    let rows = account(&s, &t, &f);
    assert_eq!(classes(&rows), vec![("parked", "d/a.md"), ("missing-remote", "d/a.md")]);
    assert_eq!(
        rows[0].detail,
        "Structural delivery for node 00000000-0000-0000-0000-000000000002 is parked: twin"
    );
}

#[test]
fn guarded_nodes_are_expected_nowhere() {
    let t = tree(vec![
        server(1, "folder", ".git", None),
        server(2, "file", "x.docli/a.md", None),
        server(3, "file", "Map.canvas", None),
        server(4, "canvas", "c", None),
    ]);
    assert!(expectations(&WsState::fresh(), WS, None, &rules(), &t).is_empty());
    let scoped = tree(vec![
        server(1, "folder", "docs", None),
        server(2, "file", "docs/a.md", None),
        server(3, "file", "other/b.md", None),
    ]);
    let es = expectations(&WsState::fresh(), WS, Some("docs"), &rules(), &scoped);
    assert_eq!(es.iter().map(|e| e.id).collect::<Vec<_>>(), vec![2]);
}

#[test]
fn what_the_filesystem_cannot_hold_is_not_expected() {
    let t = tree(vec![server(1, "file", "four.md", Some("x"))]);
    let short = FsRules { max_component_bytes: 6, ..rules() };
    assert!(expectations(&WsState::fresh(), WS, None, &short, &t).is_empty());
    let fits = FsRules { max_component_bytes: 7, ..rules() };
    assert_eq!(expectations(&WsState::fresh(), WS, None, &fits, &t).len(), 1);
}

#[test]
fn where_windows_names_rule_the_encoded_spelling_is_expected() {
    let mut n = server(1, "file", "a:b.md", Some("x"));
    n.encoded = "a%3Ab.md".to_string();
    let t = tree(vec![n]);
    let win = FsRules { win_names: true, ..rules() };
    assert_eq!(expectations(&WsState::fresh(), WS, None, &win, &t)[0].spot.path, "a%3Ab.md");
    assert_eq!(expectations(&WsState::fresh(), WS, None, &rules(), &t)[0].spot.path, "a:b.md");
}

#[test]
fn a_marker_outside_its_own_directory_reads_as_missing() {
    let mut s = WsState::fresh();
    let evil = ".docli/markers/../../evil.docli";
    s.nodes.insert(1, remembered(TrackedKind::Attachment, "p.png", Some(evil)));
    let t = tree(vec![server(1, "attachment", "p.png", None)]);
    assert!(expectations(&s, WS, None, &rules(), &t)[0].place.is_none());
    let f = Findings { probes: vec![Probe::Absent], ..nothing() };
    assert_eq!(classes(&account(&s, &t, &f)), vec![("missing-local", evil)]);
}

#[test]
fn a_missing_state_and_a_due_repair_come_first() {
    let rows = doctor_mount(
        "mirror",
        &WsState::fresh(),
        false,
        Progress { from_zero: true, at_head: true },
        WS,
        None,
        &rules(),
        &ServerTree::new(),
        &vec![],
        &nothing(),
    );
    assert_eq!(classes(&rows), vec![("state-missing", "mirror"), ("repair-pending", "mirror")]);
}

#[test]
fn the_tree_is_pulled_to_its_last_page_and_counted() {
    let mut t = ServerTree::new();
    let full: Vec<ServerNode> =
        (0..PAGE_LIMIT as u128).map(|i| server(i, "folder", "d", None)).collect();
    assert_eq!(t.take_page(&full, None), TreeStep::More);
    let mut gone = server(0, "folder", "d", None);
    gone.trashed = true;
    assert_eq!(t.take_page(&vec![], None), TreeStep::Rollback);
    assert_eq!(t.take_page(&vec![gone], Some(499)), TreeStep::Complete);
    assert!(t.node(0).is_none());
    assert_eq!(t.ids().len(), 499);
    let changed = t.take_page(&vec![], Some(3));
    assert_eq!(changed, TreeStep::Changed { live: 3, collected: 499 });
    assert_eq!(
        changed.message("rolled back").unwrap(),
        "the workspace changed mid-scan (server live count 3 vs 499 collected) — the \
         reconciliation is inconclusive; run `docli doctor` again"
    );
    assert_eq!(TreeStep::Rollback.message("rolled back").unwrap(), "rolled back");
    assert!(TreeStep::Complete.message("").is_none());
}

#[test]
fn the_report_is_printed_by_mount() {
    let all = vec![
        MountReport { name: "one".to_string(), rows: vec![] },
        MountReport { name: "two".to_string(), rows: vec![never_synced("dir")] },
    ];
    let lines = render(&all);
    assert_eq!(lines[0], "one: clean");
    assert_eq!(lines[1], "two: discrepancies: 1");
    assert!(lines[2].starts_with("  missing-local      dir                                      this"));
    assert!(lines[3].starts_with("\nrepair: `docli sync --full`"));
    assert_eq!(exit_code(&all), 1);
    let v: serde_json::Value = serde_json::from_str(&render_json(&all)).unwrap();
    assert_eq!(v[0]["mount"], "one");
    assert_eq!(v[1]["discrepancies"][0]["class"], "missing-local");
    let clean = vec![MountReport { name: "one".to_string(), rows: vec![] }];
    assert_eq!(render(&clean), vec!["one: clean"]);
    assert_eq!(exit_code(&clean), 0);
}

#[test]
fn a_refused_mount_is_a_row_of_its_own() {
    let row = refused("dir", &Refusal::NoAccess("no access to `m`".to_string()));
    assert_eq!((row.class, row.detail.as_str()), ("no-access", "no access to `m`"));
    let row = refused("dir", &Refusal::NotEntitled);
    assert_eq!(row.detail, "синхронизация не включена для вашего аккаунта");
}

#[test]
fn a_sync_that_was_not_completed_is_pending() {
    assert!(!DONE.pending());
    assert!(Progress { from_zero: false, at_head: false }.pending());
    assert!(Progress { from_zero: true, at_head: true }.pending());
    assert!(Progress { from_zero: true, at_head: false }.pending());
}

#[test]
fn a_closed_workspace_is_reported_and_any_other_fault_fails() {
    let no = |status: u16| ApiFailure::Refused {
        status,
        code: "CODE".to_string(),
        message: "words".to_string(),
    };
    match scan_fault(&no(403), true, "Team") {
        ScanFault::Refused(Refusal::NoAccess(m)) => assert_eq!(m, "no access to `Team`"),
        other => panic!("{other:?}"),
    }
    assert!(matches!(scan_fault(&no(402), false, "Team"), ScanFault::Refused(Refusal::NotEntitled)));
    match scan_fault(&no(500), false, "Team") {
        ScanFault::Failed(m) => assert_eq!(m, no(500).message()),
        other => panic!("{other:?}"),
    }
    let gone = ApiFailure::EpochChanged { epoch: 4 };
    match scan_fault(&gone, true, "Team") {
        ScanFault::Failed(m) => assert_eq!(m, gone.message()),
        other => panic!("{other:?}"),
    }
    match scan_fault(&gone, false, "Team") {
        ScanFault::Failed(m) => {
            assert_eq!(m, "the workspace was resynced mid-scan — run `docli doctor` again")
        }
        other => panic!("{other:?}"),
    }
}
