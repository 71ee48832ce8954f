use std::collections::BTreeMap;
use std::collections::BTreeSet;

use docli_cli::apply::build_claim_index;
use docli_cli::apply::hand_edit_overwritten;
use docli_cli::apply::kind_of;
use docli_cli::apply::relocated_leaf;
use docli_cli::apply::relocated_marker;
use docli_cli::apply::Delivered;
use docli_cli::apply::Disp;
use docli_cli::guard::MIRROR_RULE;
use docli_cli::localpath::project;
use docli_cli::localpath::scope_relative;
use docli_cli::localpath::FsRules;
use docli_cli::localpath::ProjectError;
use docli_cli::page::apply_page;
use docli_cli::page::make_folder;
use docli_cli::page::prune_undelivered;
use docli_cli::page::remove_materialization;
use docli_cli::page::sort_dirs;
use docli_cli::page::write_tracked;
use docli_cli::page::Action;
use docli_cli::page::ApplyStats;
use docli_cli::page::PageRun;
use docli_cli::page::Phase;
use docli_cli::page::Place;
use docli_cli::page::PutStep;
use docli_cli::page::Removal;
use docli_cli::page::Seen;
use docli_cli::page::WriteOutcome;
use docli_cli::plan::plan_page;
use docli_cli::state::NodeState;
use docli_cli::state::ParkClass;
use docli_cli::state::Spot;
use docli_cli::state::TrackedKind;
use docli_cli::state::WsState;

const WS: u128 = 0xF;

fn rules() -> FsRules {
    FsRules { fold_case_insensitive: true, win_names: false, max_component_bytes: 255 }
}

fn win_rules() -> FsRules {
    FsRules { fold_case_insensitive: true, win_names: true, max_component_bytes: 255 }
}

fn controls() -> Vec<String> {
    vec!["MOUNT.docli".to_string()]
}

/// Composes the one letter the fixtures decompose, and lowers the case where that folds.
fn fold_key(path: &str, r: &FsRules) -> String {
    let composed = path.replace("\u{0415}\u{0308}", "\u{0401}");
    if r.fold_case_insensitive {
        composed.to_lowercase()
    } else {
        composed
    }
}

fn spot(path: &str, r: &FsRules) -> Spot {
    Spot { path: path.to_string(), fold: fold_key(path, r) }
}

fn encode(path: &str, r: &FsRules) -> String {
    if r.win_names {
        path.replace(':', "%3A").replace('<', "%3C")
    } else {
        path.to_string()
    }
}

#[derive(Clone)]
struct Node {
    id: u128,
    kind: String,
    path: String,
    rev: i64,
    body: Option<String>,
    trashed: bool,
}

fn node(id: u128, kind: &str, path: &str, rev: i64, body: Option<&str>) -> Node {
    Node {
        id,
        kind: kind.to_string(),
        path: path.to_string(),
        rev,
        body: body.map(|b| b.to_string()),
        trashed: false,
    }
}

fn trashed(mut n: Node) -> Node {
    n.trashed = true;
    n
}

fn delivered(n: &Node, r: &FsRules, scope: Option<&str>) -> Delivered {
    let name = n.path.rsplit('/').next().unwrap().to_string();
    let rel = scope_relative(&n.path, scope).unwrap_or("");
    let local = encode(rel, r);
    let mut marker_spots = Vec::new();
    let beside = format!("{local}.docli");
    if project(&beside, &beside, r).is_ok() {
        marker_spots.push(spot(&beside, r));
    }
    Delivered {
        id: n.id,
        kind: n.kind.clone(),
        note_named: name.ends_with(".md"),
        name,
        path: n.path.clone(),
        rev: n.rev,
        trashed: n.trashed,
        body: n.body.clone(),
        fold: fold_key(&local, r),
        encoded: local,
        marker_spots,
        marker_text: "attachment, sha256 unknown\n".to_string(),
    }
}

/// A disk in memory: the mount's files with their read-only bit, its directories, and the
/// markers that stand outside it.
struct Fx {
    files: BTreeMap<String, (String, bool)>,
    dirs: BTreeSet<String>,
    markers: BTreeMap<String, String>,
    state: WsState,
}

fn fx() -> Fx {
    Fx {
        files: BTreeMap::new(),
        dirs: BTreeSet::new(),
        markers: BTreeMap::new(),
        state: WsState::fresh(),
    }
}

fn key(path: &str) -> String {
    fold_key(path, &rules())
}

impl Fx {
    /// The file at a path, found as a folding filesystem finds it.
    fn file(&self, path: &str) -> Option<&str> {
        let k = key(path);
        self.files.iter().find(|(p, _)| key(p) == k).map(|(_, v)| v.0.as_str())
    }

    fn is_file(&self, path: &str) -> bool {
        self.file(path).is_some()
    }

    fn is_dir(&self, path: &str) -> bool {
        let k = key(path);
        self.dirs.iter().any(|d| key(d) == k)
    }

    fn is_there(&self, path: &str) -> bool {
        self.is_file(path) || self.is_dir(path)
    }

    fn readonly(&self, path: &str) -> bool {
        self.files.get(path).map(|v| v.1).unwrap_or(false)
    }

    fn put(&mut self, path: &str, text: &str, readonly: bool) {
        let k = key(path);
        let at = self
            .files
            .keys()
            .find(|p| key(p) == k)
            .cloned()
            .unwrap_or_else(|| path.to_string());
        self.files.insert(at, (text.to_string(), readonly));
    }

    fn drop_file(&mut self, path: &str) {
        let k = key(path);
        self.files.retain(|p, _| key(p) != k);
    }

    fn make_dirs(&mut self, path: &str) -> Result<(), String> {
        let mut at = String::new();
        for part in path.split('/') {
            if !at.is_empty() {
                at.push('/');
            }
            at.push_str(part);
            if self.is_file(&at) {
                return Err(format!("{at} is a file"));
            }
            self.dirs.insert(at.clone());
        }
        Ok(())
    }

    fn drop_dir(&mut self, path: &str) -> bool {
        let inside = format!("{}/", key(path));
        let busy = self.files.keys().any(|p| key(p).starts_with(&inside))
            || self.dirs.iter().any(|d| key(d).starts_with(&inside));
        if busy {
            return false;
        }
        let k = key(path);
        self.dirs.retain(|d| key(d) != k);
        true
    }

    fn seen(&mut self, place: &str, text: &str, folder: bool) -> Seen {
        if let Some(at) = place.rfind('/') {
            if let Err(e) = self.make_dirs(&place[..at]) {
                return Seen::Blocked(e);
            }
        }
        if self.is_dir(place) {
            Seen::Directory
        } else if let Some(t) = self.file(place) {
            Seen::File { same: !folder && t == text }
        } else {
            Seen::Missing
        }
    }

    fn perform(&mut self, run: &PageRun, k: usize) -> WriteOutcome {
        let (text, folder) = match &run.plan[k] {
            Disp::Put { text, kind, .. } => (text.clone(), *kind == TrackedKind::Folder),
            _ => unreachable!(),
        };
        match run.put_place(k).expect("a place inside the two roots") {
            Place::Marker(leaf) => {
                assert!(matches!(run.perform_put(k, &Seen::Missing), Some(PutStep::Overwrite)));
                self.markers.insert(leaf, text);
                WriteOutcome::Written
            }
            Place::Mount(place) => {
                let seen = self.seen(&place, &text, folder);
                match run.perform_put(k, &seen).expect("a step") {
                    PutStep::Write | PutStep::Overwrite => {
                        self.put(&place, &text, true);
                        WriteOutcome::Written
                    }
                    PutStep::MakeDir => match self.make_dirs(&place) {
                        Ok(()) => WriteOutcome::Written,
                        Err(e) => WriteOutcome::Parked(e),
                    },
                    PutStep::Settled(o) => o,
                }
            }
        }
    }

    fn delete(&mut self, gone: Removal, run: &mut PageRun) {
        match gone {
            Removal::Keep => {}
            Removal::File(p) => {
                if !p.starts_with("../") {
                    self.drop_file(&p);
                }
            }
            Removal::Marker(leaf) => {
                self.markers.remove(&leaf);
            }
            Removal::Dir(rel) => {
                if !rel.is_empty() && self.is_dir(&rel) && !self.drop_dir(&rel) {
                    run.dir_kept(rel);
                }
            }
        }
    }

    fn go(&mut self, r: &FsRules, scope: Option<&str>, nodes: &[Node]) -> ApplyStats {
        let state = std::mem::replace(&mut self.state, WsState::fresh());
        let idx = build_claim_index(&state);
        let page: Vec<Delivered> = nodes.iter().map(|n| delivered(n, r, scope)).collect();
        let plan = plan_page(&state, &idx, WS, scope, &controls(), r, &page);
        let mut run = apply_page(state, idx, WS, page, plan);
        loop {
            match run.advance() {
                Action::Pass => {}
                Action::Put(k) => {
                    let again = run.phase == Phase::Retrying;
                    let outcome = self.perform(&run, k);
                    if again {
                        let gone = run.retry_done(outcome);
                        self.delete(gone, &mut run);
                    } else {
                        run.put_done(outcome);
                    }
                }
                Action::Delete(gone) => self.delete(gone, &mut run),
                Action::RemoveDir(rel) => {
                    if self.is_dir(&rel) && !self.drop_dir(&rel) {
                        run.dir_kept(rel);
                    }
                }
                Action::Done => break,
            }
        }
        self.state = run.state;
        run.stats
    }
}

fn apply(f: &mut Fx, r: &FsRules, nodes: &[Node]) -> ApplyStats {
    f.go(r, None, nodes)
}

#[test]
fn fresh_mirror_equals_server_tree_and_files_are_read_only() {
    let mut f = fx();
    apply(
        &mut f,
        &rules(),
        &[
            node(1, "folder", "docs", 1, None),
            node(2, "file", "docs/a.md", 2, Some("# hello")),
            node(3, "attachment", "docs/pic.png", 3, None),
        ],
    );
    assert_eq!(f.file("docs/a.md"), Some("# hello"));
    assert!(f.readonly("docs/a.md"));
    assert!(f.file("docs/pic.png.docli").unwrap().contains("sha256 unknown"));
    assert!(!f.is_there("docs/pic.png"));
    assert_eq!(f.state.ledger.len(), 3);
}

#[test]
fn a_remote_rename_lands_as_a_move_with_the_same_id() {
    let mut f = fx();
    apply(&mut f, &rules(), &[node(1, "file", "a.md", 1, Some("body"))]);
    apply(&mut f, &rules(), &[node(1, "file", "b.md", 2, Some("body"))]);
    assert!(!f.is_there("a.md"), "old path removed");
    assert_eq!(f.file("b.md"), Some("body"));
    assert_eq!(f.state.nodes[&1].local.path, "b.md");
    assert_eq!(f.state.nodes.len(), 1);
}

#[test]
fn a_swap_never_deletes_the_claimed_path() {
    let mut f = fx();
    apply(
        &mut f,
        &rules(),
        &[node(1, "file", "a.md", 1, Some("one")), node(2, "file", "b.md", 1, Some("two"))],
    );
    apply(
        &mut f,
        &rules(),
        &[node(1, "file", "b.md", 2, Some("one")), node(2, "file", "a.md", 2, Some("two"))],
    );
    assert_eq!(f.file("b.md"), Some("one"));
    assert_eq!(f.file("a.md"), Some("two"));
}

#[test]
fn folder_move_redelivery_converges_and_removes_the_old_tree() {
    let mut f = fx();
    apply(
        &mut f,
        &rules(),
        &[node(1, "folder", "old", 1, None), node(2, "file", "old/a.md", 2, Some("x"))],
    );
    apply(
        &mut f,
        &rules(),
        &[node(1, "folder", "new", 3, None), node(2, "file", "new/a.md", 3, Some("x"))],
    );
    assert!(f.is_there("new/a.md"));
    assert!(!f.is_there("old"), "old dir removed leaf-first");
}

#[test]
fn trashed_removes_and_read_only_is_lifted() {
    let mut f = fx();
    apply(&mut f, &rules(), &[node(1, "file", "a.md", 1, Some("x"))]);
    assert!(f.readonly("a.md"));
    apply(&mut f, &rules(), &[trashed(node(1, "file", "a.md", 2, None))]);
    assert!(!f.is_there("a.md"));
    assert!(f.state.ledger.is_empty());
    assert!(f.state.nodes.is_empty());
}

#[test]
fn trashed_folder_with_untracked_occupant_is_preserved() {
    let mut f = fx();
    apply(
        &mut f,
        &rules(),
        &[node(1, "folder", "d", 1, None), node(2, "file", "d/a.md", 2, Some("x"))],
    );
    f.put("d/stray.txt", "mine", false);
    let stats = apply(
        &mut f,
        &rules(),
        &[
            trashed(node(1, "folder", "d", 3, None)),
            trashed(node(2, "file", "d/a.md", 3, None)),
        ],
    );
    assert!(!f.is_there("d/a.md"), "tracked child removed");
    assert!(f.is_there("d/stray.txt"), "untracked occupant preserved");
    assert_eq!(stats.pending_dir_removals.len(), 1, "the dir stays, reported");
}

#[test]
fn divergent_untracked_occupant_parks_and_byte_equal_adopts() {
    let mut f = fx();
    f.put("same.md", "identical", false);
    f.put("diff.md", "MINE", false);
    let stats = apply(
        &mut f,
        &rules(),
        &[
            node(1, "file", "same.md", 1, Some("identical")),
            node(2, "file", "diff.md", 1, Some("THEIRS")),
        ],
    );
    assert_eq!(stats.adopted, 1);
    assert_eq!(stats.parked, 1);
    assert_eq!(f.file("diff.md"), Some("MINE"), "never overwrites what it does not own");
    let park = &f.state.parks[&2];
    assert_eq!(park.class, ParkClass::Transient);
    assert!(park.reason.contains("--full"), "the message names the repair: {}", park.reason);
    assert!(f.state.ledger.contains(&2));
}

#[test]
fn fold_twins_park_instead_of_clobbering() {
    let mut f = fx();
    let nfc = "Ёлка.md";
    let nfd = "Е\u{0308}лка.md";
    assert_ne!(nfc, nfd, "the fixture must be two spellings");
    let stats = apply(
        &mut f,
        &rules(),
        &[node(1, "file", nfc, 1, Some("one")), node(2, "file", nfd, 1, Some("two"))],
    );
    assert_eq!(stats.parked, 1);
    assert_eq!(f.state.parks[&2].class, ParkClass::Lasting);
    assert_eq!(f.state.nodes.len(), 1, "only the first twin materializes");
}

#[test]
fn case_twins_are_guard_legal_on_a_case_sensitive_filesystem() {
    let cs = FsRules { fold_case_insensitive: false, ..rules() };
    assert_ne!(fold_key("a.md", &cs), fold_key("A.md", &cs));
    assert_eq!(fold_key("a.md", &rules()), fold_key("A.md", &rules()));
    let twins = |r: &FsRules| {
        let state = WsState::fresh();
        let idx = build_claim_index(&state);
        let page = vec![
            delivered(&node(1, "file", "a.md", 1, Some("x")), r, None),
            delivered(&node(2, "file", "A.md", 1, Some("y")), r, None),
        ];
        plan_page(&state, &idx, WS, None, &controls(), r, &page)
    };
    assert!(twins(&cs).iter().all(|d| matches!(d, Disp::Put { .. })));
    assert!(matches!(twins(&rules())[1], Disp::Park { class: ParkClass::Lasting, .. }));
}

#[test]
fn md_guard_parks_a_note_at_a_non_note_name() {
    let mut f = fx();
    let stats = apply(&mut f, &rules(), &[node(1, "file", "Map.canvas", 1, Some("{}"))]);
    assert_eq!(stats.parked, 1);
    assert!(!f.is_there("Map.canvas"), "the A3 write is refused");
    assert_eq!(f.state.parks[&1].class, ParkClass::Lasting);
}

#[test]
fn docli_namespace_parks_including_descendants_and_attachment_names() {
    let mut f = fx();
    let stats = apply(
        &mut f,
        &rules(),
        &[
            node(1, "folder", "foo.docli", 1, None),
            node(2, "file", "foo.docli/child.md", 2, Some("x")),
            node(3, "attachment", "x.png.docli", 3, None),
        ],
    );
    assert_eq!(stats.parked, 3);
    assert!(!f.is_there("foo.docli"), "the parked folder is never ancestor-created");
    assert_eq!(f.state.ledger.len(), 3);
}

#[test]
fn reserved_segments_are_skipped_but_stay_in_the_ledger() {
    let mut f = fx();
    let stats = apply(
        &mut f,
        &rules(),
        &[node(1, "folder", ".obsidian", 1, None), node(2, "file", ".git/x.md", 1, Some("s"))],
    );
    assert_eq!(stats.parked, 0, "skips, not parks");
    assert!(!f.is_there(".obsidian"));
    assert_eq!(f.state.ledger.len(), 2);
}

#[test]
fn scope_filters_and_scope_exit_removes() {
    let mut f = fx();
    let r = rules();
    f.go(
        &r,
        Some("docs"),
        &[
            node(1, "file", "docs/in.md", 1, Some("in")),
            node(2, "file", "elsewhere/out.md", 1, Some("out")),
        ],
    );
    assert!(f.is_there("in.md"), "scope-relative at the mount root");
    assert!(!f.is_there("elsewhere"));
    assert_eq!(f.state.ledger.len(), 2);
    f.go(&r, Some("docs"), &[node(1, "file", "moved/in.md", 2, Some("in"))]);
    assert!(!f.is_there("in.md"));
    assert!(f.state.nodes.is_empty());
    assert_eq!(f.state.ledger.len(), 2, "still live on the wire");
}

#[test]
fn windows_projection_writes_the_encoded_spelling_and_parks_collisions() {
    let mut f = fx();
    let stats = apply(
        &mut f,
        &win_rules(),
        &[
            node(1, "file", "a:b.md", 1, Some("colon")),
            node(2, "file", "a%3Ab.md", 2, Some("literal")),
        ],
    );
    assert!(f.is_there("a%3Ab.md"));
    assert_eq!(stats.parked, 1);
    assert_eq!(f.state.parks[&2].class, ParkClass::Lasting);
    let long = format!("{}.md", ":".repeat(120));
    let stats = apply(&mut f, &win_rules(), &[node(3, "file", &long, 3, Some("x"))]);
    assert_eq!(stats.parked, 1);
}

#[test]
fn marker_relocates_on_control_file_collision_and_search_resolves_via_state() {
    let mut f = fx();
    apply(&mut f, &rules(), &[node(1, "attachment", "MOUNT", 1, None)]);
    let ns = &f.state.nodes[&1];
    assert_eq!(
        ns.marker.as_ref().map(|m| m.path.as_str()),
        Some(
            ".docli/markers/00000000-0000-0000-0000-00000000000f/\
             00000000-0000-0000-0000-000000000001.docli"
        )
    );
    assert!(f.markers.contains_key("00000000-0000-0000-0000-000000000001.docli"));
    assert!(!f.is_there("MOUNT.docli"), "control files win the mirror-root names");
}

#[test]
fn prune_removes_undelivered_but_preserves_untracked() {
    let mut f = fx();
    apply(
        &mut f,
        &rules(),
        &[node(1, "file", "keep.md", 1, Some("k")), node(2, "file", "stale.md", 1, Some("s"))],
    );
    f.put("mine.txt", "untracked", false);
    let done: BTreeSet<u128> = [1u128].into_iter().collect();
    for gone in prune_undelivered(&mut f.state, WS, &done) {
        match gone {
            Removal::File(p) => f.drop_file(&p),
            other => panic!("{other:?}"),
        }
    }
    assert!(f.is_there("keep.md"));
    assert!(!f.is_there("stale.md"), "the prune pin");
    assert!(f.is_there("mine.txt"), "never deletes what it does not own");
    assert!(!f.state.nodes.contains_key(&2));
    assert!(!f.state.ledger.contains(&2));
}

#[test]
fn crash_window_redelivery_adopts_byte_equal_state_drift() {
    let mut f = fx();
    f.put("a.md", "body", false);
    let stats = apply(&mut f, &rules(), &[node(1, "file", "a.md", 1, Some("body"))]);
    assert_eq!(stats.adopted, 1);
    assert_eq!(stats.parked, 0);
    assert!(f.state.nodes.contains_key(&1));
}

#[test]
fn a_kind_swap_converges_instead_of_wedging() {
    let mut f = fx();
    apply(
        &mut f,
        &rules(),
        &[
            node(1, "folder", "Архив.md", 1, None),
            node(2, "file", "Архив.md/note.md", 2, Some("x")),
        ],
    );
    assert!(f.is_dir("Архив.md"));
    let stats = apply(
        &mut f,
        &rules(),
        &[
            trashed(node(2, "file", "Архив.md/note.md", 3, None)),
            trashed(node(1, "folder", "Архив.md", 3, None)),
            node(3, "file", "Архив.md", 3, Some("now a note")),
        ],
    );
    assert_eq!(stats.parked, 0, "the retry pass converges, never parks the swap");
    assert!(f.is_file("Архив.md"));
    assert_eq!(f.file("Архив.md"), Some("now a note"));
    let stats = apply(
        &mut f,
        &rules(),
        &[
            trashed(node(3, "file", "Архив.md", 4, None)),
            node(4, "folder", "Архив.md", 4, None),
        ],
    );
    assert_eq!(stats.parked, 0);
    assert!(f.is_dir("Архив.md"));
}

#[test]
fn a_retried_kind_swap_that_also_moved_deletes_its_old_path() {
    let mut f = fx();
    apply(
        &mut f,
        &rules(),
        &[node(1, "folder", "X.md", 1, None), node(2, "file", "a.md", 1, Some("body"))],
    );
    let stats = apply(
        &mut f,
        &rules(),
        &[
            trashed(node(1, "folder", "X.md", 2, None)),
            node(2, "file", "X.md", 2, Some("body")),
        ],
    );
    assert_eq!(stats.parked, 0);
    assert!(f.is_file("X.md"));
    assert!(
        !f.is_there("a.md"),
        "the moved-from path must not orphan (it is untracked after the move — no CLI verb \
         could ever remove it)"
    );
    assert_eq!(f.state.nodes[&2].local.path, "X.md");
    assert_eq!(f.state.nodes.len(), 1);
}

#[test]
fn a_case_only_rename_never_deletes_its_own_file() {
    let mut f = fx();
    apply(&mut f, &rules(), &[node(1, "file", "Foo.md", 1, Some("body"))]);
    apply(&mut f, &rules(), &[node(1, "file", "foo.md", 2, Some("body"))]);
    let survives = f.is_file("foo.md") || f.is_file("Foo.md");
    assert!(survives, "the note must survive a case-only respelling");
    assert_eq!(f.state.nodes[&1].local.path, "foo.md");
    assert!(f.state.parks.is_empty());
}

#[test]
fn a_case_only_rename_with_a_body_change_overwrites_instead_of_parking() {
    let mut f = fx();
    apply(&mut f, &rules(), &[node(1, "file", "Foo.md", 1, Some("old body"))]);
    let stats = apply(&mut f, &rules(), &[node(1, "file", "foo.md", 2, Some("new body"))]);
    assert_eq!(stats.parked, 0, "{:?}", f.state.parks);
    assert_eq!(f.file("foo.md"), Some("new body"));
    assert_eq!(f.state.nodes[&1].local.path, "foo.md");
}

#[test]
fn a_parked_ancestor_from_an_earlier_page_parks_later_children_structurally() {
    let mut f = fx();
    apply(&mut f, &rules(), &[node(1, "file", "A.md", 1, Some("incumbent"))]);
    let stats = apply(&mut f, &rules(), &[node(2, "folder", "a.md", 2, None)]);
    assert_eq!(stats.parked, 1);
    let stats = apply(&mut f, &rules(), &[node(3, "file", "a.md/c.md", 3, Some("child"))]);
    assert_eq!(stats.parked, 1);
    let park = &f.state.parks[&3];
    assert_eq!(park.class, ParkClass::Lasting, "{park:?}");
    assert!(park.reason.contains("parked folder"), "{park:?}");
}

#[test]
fn a_propagation_parked_child_releases_its_claim_for_a_legitimate_sibling() {
    let mut f = fx();
    apply(&mut f, &win_rules(), &[node(1, "folder", "a%3Cb", 1, None)]);
    let stats = apply(
        &mut f,
        &win_rules(),
        &[
            node(2, "folder", "a<b", 2, None),
            node(3, "file", "a<b/x.md", 2, Some("shadow")),
            node(4, "file", "a%3Cb/x.md", 2, Some("legitimate")),
        ],
    );
    assert_eq!(stats.parked, 2, "{:?}", f.state.parks);
    assert_eq!(f.file("a%3Cb/x.md"), Some("legitimate"));
    assert!(f.state.nodes.contains_key(&4));
}

#[test]
fn descendants_of_a_collision_parked_folder_park_instead_of_wedging() {
    let mut f = fx();
    apply(&mut f, &rules(), &[node(1, "file", "A.md", 1, Some("incumbent"))]);
    let stats = apply(
        &mut f,
        &rules(),
        &[node(2, "folder", "a.md", 2, None), node(3, "file", "a.md/c.md", 2, Some("child"))],
    );
    assert_eq!(stats.parked, 2, "folder AND descendant park");
    assert_eq!(f.state.parks[&3].class, ParkClass::Lasting);
    assert!(f.is_file("A.md"), "the incumbent is untouched");
    assert_eq!(f.state.nodes.len(), 1);
}

#[test]
fn a_note_replaced_by_a_same_path_attachment_loses_its_bytes() {
    let mut f = fx();
    apply(&mut f, &rules(), &[node(1, "file", "x.md", 1, Some("note body"))]);
    assert!(f.is_file("x.md"));
    let stats = apply(
        &mut f,
        &rules(),
        &[trashed(node(1, "file", "x.md", 2, None)), node(2, "attachment", "x.md", 2, None)],
    );
    assert_eq!(stats.parked, 0);
    assert!(
        !f.is_there("x.md"),
        "the note's bytes must not survive at the attachment's binary path"
    );
    assert!(f.is_file("x.md.docli"), "the marker is the materialization");
}

#[test]
fn a_kind_swap_blocked_by_an_untracked_dir_parks_with_the_repair_named() {
    let mut f = fx();
    f.make_dirs("busy.md").unwrap();
    let stats = apply(&mut f, &rules(), &[node(1, "file", "busy.md", 1, Some("x"))]);
    assert_eq!(stats.parked, 1);
    let park = &f.state.parks[&1];
    assert_eq!(park.class, ParkClass::Transient);
    assert!(park.reason.contains("--full"), "{}", park.reason);
}

#[test]
fn a_relocated_marker_leaf_is_containment_validated() {
    let state = WsState::fresh();
    let idx = build_claim_index(&state);
    let page = vec![delivered(&node(1, "attachment", "x.png", 1, None), &rules(), None)];
    let evil = ".docli/markers/../../evil.docli".to_string();
    let plan = vec![Disp::Put {
        kind: TrackedKind::Attachment,
        local: spot("x.png", &rules()),
        text: "m".to_string(),
        marker: Some(Spot { path: evil.clone(), fold: evil }),
    }];
    let run = apply_page(state, idx, WS, page, plan);
    assert!(run.put_place(0).is_none());
}

#[test]
fn a_corrupted_state_path_is_discarded_not_a_wedge() {
    let mut f = fx();
    let tampered = |server: &str, local: &str| NodeState {
        server_path: server.to_string(),
        local: spot(local, &rules()),
        kind: TrackedKind::Note,
        rev: 1,
        content_sha256: String::new(),
        marker: None,
    };
    f.state.ledger.insert(1);
    f.state.nodes.insert(1, tampered("a.md", "../outside.md"));
    f.state.ledger.insert(2);
    f.state.nodes.insert(2, tampered("b.md", ""));
    f.put("../outside.md", "keep me", false);
    apply(
        &mut f,
        &rules(),
        &[trashed(node(1, "file", "a.md", 2, None)), trashed(node(2, "file", "b.md", 3, None))],
    );
    assert!(f.state.nodes.is_empty());
    assert_eq!(f.file("../outside.md"), Some("keep me"), "the outside file is untouched");
}

#[test]
fn a_sibling_workspaces_marker_path_refuses_to_resolve() {
    let ours = "00000000-0000-0000-0000-00000000000f";
    let sibling = "00000000-0000-0000-0000-00000000000b";
    let node = "00000000-0000-0000-0000-000000000007";
    let sib_path = format!(".docli/markers/{sibling}/x.docli");
    assert!(relocated_leaf(&sib_path, WS).is_none());
    let good = format!(".docli/markers/{ours}/{node}.docli");
    let leaf = format!("{node}.docli");
    assert_eq!(relocated_leaf(&good, WS), Some(leaf));
    assert!(relocated_leaf(&format!(".docli/markers/{ours}/../{node}.docli"), WS).is_none());
    let bare = node.replace('-', "");
    for other in [bare.clone(), format!("{{{node}}}"), format!("urn:uuid:{node}")] {
        let path = format!(".docli/markers/{ours}/{other}.docli");
        assert!(relocated_leaf(&path, WS).is_none(), "{path}");
    }
    assert!(relocated_leaf(&format!(".docli/markers/{ours}/a/{node}.docli"), WS).is_none());
    assert!(
        relocated_leaf(&format!(".docli/markers/{ours}/..\\{sibling}\\{node}.docli"), WS)
            .is_none(),
        "backslash separators must refuse too (Windows join semantics)"
    );
    assert!(
        relocated_leaf(&format!(".docli/markers/{ours}/C:{node}.docli"), WS).is_none(),
        "a Windows drive prefix must refuse (join discards the base)"
    );
    assert!(
        relocated_leaf(&format!(".docli/markers/{ours}/x.docli"), WS).is_none(),
        "only the generated <uuid>.docli shape resolves"
    );
}

#[test]
fn a_tampered_relocated_marker_refuses_on_the_delete_path_too() {
    let state = WsState::fresh();
    let idx = build_claim_index(&state);
    let evil = ".docli/markers/../../evil.docli".to_string();
    let prev = NodeState {
        server_path: "x.png".to_string(),
        local: spot("x.png", &rules()),
        kind: TrackedKind::Attachment,
        rev: 1,
        content_sha256: String::new(),
        marker: Some(Spot { path: evil.clone(), fold: evil }),
    };
    assert!(matches!(remove_materialization(&idx, 0xF, &prev), Removal::Keep));
}

#[test]
fn trashing_a_parked_node_clears_its_park() {
    let mut f = fx();
    f.put("x.md", "occupant", false);
    apply(&mut f, &rules(), &[node(1, "file", "x.md", 1, Some("server"))]);
    assert!(f.state.parks.contains_key(&1));
    apply(&mut f, &rules(), &[trashed(node(1, "file", "x.md", 2, None))]);
    assert!(f.state.parks.is_empty());
    assert_eq!(f.file("x.md"), Some("occupant"));
}

#[test]
fn an_attachments_binary_path_never_shields_an_overwrite_of_a_user_file() {
    let mut f = fx();
    apply(&mut f, &rules(), &[node(1, "attachment", "x.MD", 1, None)]);
    f.put("x.md", "the user's own file", false);
    apply(
        &mut f,
        &rules(),
        &[
            trashed(node(1, "attachment", "x.MD", 2, None)),
            node(2, "file", "x.md", 3, Some("server note")),
        ],
    );
    assert_eq!(f.file("x.md"), Some("the user's own file"));
    assert!(f.state.parks.contains_key(&2));
}

#[test]
fn a_relocated_marker_survives_a_second_revision() {
    let mut f = fx();
    let long = "a".repeat(248);
    let path = format!("{long}.png");
    apply(&mut f, &rules(), &[node(1, "attachment", &path, 1, None)]);
    let mp = f.state.nodes[&1].marker.as_ref().unwrap().path.clone();
    assert!(mp.starts_with(".docli/markers/"), "{mp}");
    let stats = apply(&mut f, &rules(), &[node(1, "attachment", &path, 2, None)]);
    assert_eq!(stats.parked, 0);
}

#[test]
fn a_park_heals_when_a_later_rev_materializes() {
    let mut f = fx();
    f.put("x.md", "occupant", false);
    apply(&mut f, &rules(), &[node(1, "file", "x.md", 1, Some("server"))]);
    assert!(f.state.parks.contains_key(&1));
    f.drop_file("x.md");
    apply(&mut f, &rules(), &[node(1, "file", "y.md", 2, Some("server"))]);
    assert!(f.state.parks.is_empty());
    assert!(f.is_there("y.md"));
}

#[test]
fn a_page_changes_only_what_it_delivers() {
    let mut f = fx();
    f.put("held.md", "occupant", false);
    apply(
        &mut f,
        &rules(),
        &[
            node(1, "file", "a.md", 1, Some("a")),
            node(2, "file", "b.md", 1, Some("b")),
            node(3, "file", "held.md", 1, Some("server")),
            node(4, "file", "gone.md", 1, Some("g")),
        ],
    );
    apply(
        &mut f,
        &rules(),
        &[
            node(2, "file", "A2.md", 2, Some("b")),
            trashed(node(4, "file", "gone.md", 2, None)),
            // The fold key of a node that the page does not touch.
            node(5, "file", "A.md", 1, Some("twin")),
        ],
    );
    assert_eq!(f.state.nodes[&1].local.path, "a.md");
    assert!(f.state.parks.contains_key(&3));
    assert_eq!(f.state.nodes[&2].local.path, "A2.md");
    assert!(!f.state.nodes.contains_key(&4) && !f.state.nodes.contains_key(&5));
    let mut live: Vec<u128> = f.state.ledger.iter().copied().collect();
    live.sort();
    assert_eq!(live, [1, 2, 3, 5]);
}

#[test]
fn a_note_remembers_the_digest_of_what_was_written() {
    let mut f = fx();
    apply(
        &mut f,
        &rules(),
        &[node(1, "folder", "d", 1, None), node(2, "file", "d/a.md", 1, Some("abc"))],
    );
    assert_eq!(
        f.state.nodes[&2].content_sha256,
        "ba7816bf8f01cfea414140de5dae2223b00361a396177a9cb410ff61f20015ad"
    );
    assert_eq!(f.state.nodes[&1].content_sha256, "");
    assert_eq!(f.state.nodes[&2].server_path, "d/a.md");
    assert_eq!(f.state.nodes[&2].rev, 1);
}

#[test]
fn an_unknown_kind_is_noted_and_drops_what_was_materialized() {
    assert_eq!(kind_of("file"), Some(TrackedKind::Note));
    assert_eq!(kind_of("folder"), Some(TrackedKind::Folder));
    assert_eq!(kind_of("attachment"), Some(TrackedKind::Attachment));
    assert_eq!(kind_of("canvas"), None);
    let mut f = fx();
    apply(&mut f, &rules(), &[node(1, "file", "a.md", 1, Some("x"))]);
    let stats = apply(&mut f, &rules(), &[node(1, "canvas", "a.md", 2, None)]);
    assert_eq!(stats.removed, 1);
    assert!(!f.is_there("a.md"));
    assert!(f.state.ledger.contains(&1));
}

#[test]
fn what_stands_in_the_way_of_a_write_is_named() {
    let said = |s: PutStep| match s {
        PutStep::Settled(WriteOutcome::Parked(r)) => r,
        other => panic!("{other:?}"),
    };
    assert_eq!(
        said(write_tracked(false, "a.md", &Seen::File { same: false })),
        "a divergent untracked file occupies a.md — remove it and run `docli sync --full`"
    );
    assert_eq!(
        said(write_tracked(false, "a.md", &Seen::Directory)),
        "an untracked directory occupies a.md — remove it and run `docli sync --full`"
    );
    assert_eq!(
        said(write_tracked(true, "d/a.md", &Seen::Blocked("no".to_string()))),
        "cannot create the parent directory for d/a.md (no) — run `docli sync --full` once the \
         blocking file is gone"
    );
    assert!(matches!(
        write_tracked(true, "a.md", &Seen::Directory),
        PutStep::Settled(WriteOutcome::InTheWay)
    ));
    assert!(matches!(
        write_tracked(false, "a.md", &Seen::File { same: true }),
        PutStep::Settled(WriteOutcome::Adopted)
    ));
    assert!(matches!(write_tracked(true, "a.md", &Seen::File { same: false }), PutStep::Overwrite));
    assert!(matches!(write_tracked(false, "a.md", &Seen::Missing), PutStep::Write));
    assert!(said(make_folder(false, "d", &Seen::File { same: false }))
        .starts_with("an untracked file occupies the folder path d — remove it"));
    assert_eq!(
        said(make_folder(false, "d", &Seen::Blocked("no".to_string()))),
        "cannot create the directory d (no) — run `docli sync --full` once the blocking file is \
         gone"
    );
    assert!(matches!(
        make_folder(true, "d", &Seen::File { same: false }),
        PutStep::Settled(WriteOutcome::InTheWay)
    ));
    assert!(matches!(make_folder(false, "d", &Seen::Directory), PutStep::MakeDir));
}

#[test]
fn directories_go_leaf_first_and_keep_their_order_otherwise() {
    let dirs: Vec<String> =
        ["a", "b/c", "d", "b/c/e", "f/g"].iter().map(|s| s.to_string()).collect();
    assert_eq!(sort_dirs(&dirs), vec!["b/c/e", "b/c", "f/g", "a", "d"]);
}

#[test]
fn the_index_holds_what_live_nodes_materialize_and_nothing_else() {
    let mut f = fx();
    apply(
        &mut f,
        &rules(),
        &[
            node(1, "file", "A.md", 1, Some("x")),
            node(2, "attachment", "p.png", 1, None),
            node(3, "file", "b.md", 1, Some("y")),
        ],
    );
    f.state.ledger.remove(&3);
    let idx = build_claim_index(&f.state);
    assert_eq!(idx.owner("a.md"), Some(1));
    assert_eq!(idx.owner("p.png.docli"), Some(2));
    assert_eq!(idx.owner("p.png"), None);
    assert_eq!(idx.owner("b.md"), None);
}

#[test]
fn a_path_that_does_not_fit_is_held_back() {
    let r = FsRules { max_component_bytes: 6, ..rules() };
    let state = WsState::fresh();
    let idx = build_claim_index(&state);
    let page = vec![delivered(&node(1, "file", "d/four.md", 1, Some("x")), &r, None)];
    match &plan_page(&state, &idx, WS, None, &controls(), &r, &page)[0] {
        Disp::Park { class, reason } => {
            assert_eq!(*class, ParkClass::Lasting);
            assert_eq!(
                reason,
                "not representable on this filesystem: ComponentTooLong { component: \"four.md\" }"
            );
        }
        other => panic!("{other:?}"),
    }
}

#[test]
fn a_folder_at_an_empty_path_is_never_removed() {
    let idx = build_claim_index(&WsState::fresh());
    let gone = |path: &str| NodeState {
        server_path: "d".to_string(),
        local: spot(path, &rules()),
        kind: TrackedKind::Folder,
        rev: 1,
        content_sha256: String::new(),
        marker: None,
    };
    assert!(matches!(remove_materialization(&idx, WS, &gone("")), Removal::Keep));
    assert!(matches!(remove_materialization(&idx, WS, &gone("d")), Removal::Dir(d) if d == "d"));
}

#[test]
fn a_component_that_does_not_fit_is_named() {
    let r = FsRules { max_component_bytes: 3, ..rules() };
    match project("ab/abcd", "", &r) {
        Err(ProjectError::ComponentTooLong { component }) => assert_eq!(component, "abcd"),
        other => panic!("{other:?}"),
    }
    assert_eq!(project("abc/x", "", &r).unwrap(), "abc/x");
}

#[test]
fn an_overwritten_hand_edit_is_told_with_the_rule() {
    let said = hand_edit_overwritten("docs/a.md");
    assert!(said.starts_with("docs/a.md ") && said.contains(MIRROR_RULE), "{said}");
    assert_eq!(
        relocated_marker(0xF, 1),
        ".docli/markers/00000000-0000-0000-0000-00000000000f/\
         00000000-0000-0000-0000-000000000001.docli"
    );
}
