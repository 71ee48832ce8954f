//! The control account of a mirror: the server's tree, the disk and the remembered state, held
//! against each other without changing any of them. What comes out is a list of discrepancies,
//! each with its class.
//!
//! `missing-local` is a live node in scope that is not on disk, `digest-mismatch` a note whose
//! bytes are not the server's body, `marker-drift` a marker whose bytes are not what it should
//! say, `id-mismatch` a path at which the state tracks another node, `untracked` something on
//! disk that the state does not track there, `missing-remote` something on disk that no node
//! explains, `state-orphan` a tracked node that is gone from the server, `fold-collision` two
//! nodes with one physical path, and `crash-residue` a temporary file of an interrupted write.

use vstd::prelude::*;

use std::collections::BTreeMap;

use vstd::hash_map::StringHashMap;

use crate::apply::kind_named;
use crate::apply::kind_of;
use crate::apply::leaf_of;
use crate::apply::node_at;
use crate::apply::relocated_leaf;
use crate::digest::hex_of;
use crate::digest::sha256_of;
use crate::digest::sha_hex;
use crate::http::failure_message;
use crate::http::ApiFailure;
use crate::ids::id_text;
use crate::ids::print_id;
use crate::json::elements_of;
use crate::json::lemma_elements_view;
use crate::json::lemma_members_view;
use crate::json::members_of;
use crate::json::pretty_json;
use crate::json::print_json_pretty;
use crate::json::Json;
use crate::json::JsonVal;
use crate::localpath::docli_segment;
use crate::localpath::has_reserved_segment;
use crate::localpath::in_docli_namespace;
use crate::localpath::in_scope;
use crate::localpath::oversized;
use crate::localpath::project;
use crate::localpath::reserved_segment;
use crate::localpath::scope_relative;
use crate::localpath::spelled;
use crate::localpath::FsRules;
use crate::page::opt_place;
use crate::page::Place;
use crate::page::PlaceVal;
use crate::state::is_roll;
use crate::state::keys_in_order;
use crate::state::lemma_roll_exists;
use crate::state::roll;
use crate::state::NodeVal;
use crate::state::ParkClass;
use crate::state::ParkVal;
use crate::state::Spot;
use crate::state::SpotVal;
use crate::state::TrackedKind;
use crate::state::WsState;
use crate::text::begins;
use crate::text::cat2;
use crate::text::cat3;
use crate::text::cat4;
use crate::text::cat5;
use crate::text::clone_opt;
use crate::text::decimal;
use crate::text::decimal_of;
use crate::text::opt_ref;
use crate::text::opt_str;
use crate::text::pad_end;
use crate::text::padded;
use crate::text::same;
use crate::text::signed;
use crate::text::signed_of;
use crate::text::starts_with;
use crate::text::strs;

verus! {

broadcast use vstd::std_specs::btree::group_btree_axioms;

/// How many nodes a full page holds.
pub const PAGE_LIMIT: usize = 500;

/// One finding.
#[derive(Debug)]
pub struct Discrepancy {
    pub class: &'static str,
    pub path: String,
    pub detail: String,
}

/// What a [`Discrepancy`] says.
pub struct RowVal {
    pub class: Seq<char>,
    pub path: Seq<char>,
    pub detail: Seq<char>,
}

impl Discrepancy {
    pub open spec fn view(&self) -> RowVal {
        RowVal { class: self.class@, path: self.path@, detail: self.detail@ }
    }
}

pub open spec fn rows(v: Seq<Discrepancy>) -> Seq<RowVal> {
    Seq::new(v.len(), |i: int| v[i].view())
}

fn note(out: &mut Vec<Discrepancy>, class: &'static str, path: &str, detail: String)
    ensures
        rows(final(out)@) == rows(old(out)@).push(
            RowVal { class: class@, path: path@, detail: detail@ },
        ),
{
    out.push(Discrepancy { class, path: path.to_owned(), detail });
    assert(rows(out@) =~= rows(old(out)@).push(
        RowVal { class: class@, path: path@, detail: detail@ },
    ));
}

/// A node as the server has it.
#[derive(Debug)]
pub struct ServerNode {
    pub id: u128,
    pub kind: String,
    pub path: String,
    pub trashed: bool,
    pub body: Option<String>,
    /// A note may have this name.
    pub note_named: bool,
    /// The spelling of its path in scope under the Windows rules on names.
    pub encoded: String,
    /// The fold key of its local spelling.
    pub fold: String,
    /// The fold key of its local spelling with `.docli` behind it.
    pub marker_fold: String,
    /// What the marker of an attachment says.
    pub marker_text: String,
}

/// What a [`ServerNode`] says.
pub struct ServerVal {
    pub id: u128,
    pub kind: Seq<char>,
    pub path: Seq<char>,
    pub trashed: bool,
    pub body: Option<Seq<char>>,
    pub note_named: bool,
    pub encoded: Seq<char>,
    pub fold: Seq<char>,
    pub marker_fold: Seq<char>,
    pub marker_text: Seq<char>,
}

impl ServerNode {
    pub open spec fn view(&self) -> ServerVal {
        ServerVal {
            id: self.id,
            kind: self.kind@,
            path: self.path@,
            trashed: self.trashed,
            body: opt_str(self.body),
            note_named: self.note_named,
            encoded: self.encoded@,
            fold: self.fold@,
            marker_fold: self.marker_fold@,
            marker_text: self.marker_text@,
        }
    }

    fn copy(&self) -> (r: ServerNode)
        ensures
            r.view() == self.view(),
    {
        ServerNode {
            id: self.id,
            kind: self.kind.clone(),
            path: self.path.clone(),
            trashed: self.trashed,
            body: clone_opt(&self.body),
            note_named: self.note_named,
            encoded: self.encoded.clone(),
            fold: self.fold.clone(),
            marker_fold: self.marker_fold.clone(),
            marker_text: self.marker_text.clone(),
        }
    }
}

pub open spec fn server_page(v: Seq<ServerNode>) -> Seq<ServerVal> {
    Seq::new(v.len(), |i: int| v[i].view())
}

/// The live tree after a page: the latest row of each id counts, and a tombstone takes the id out.
pub open spec fn absorbed(tree: Map<u128, ServerVal>, page: Seq<ServerVal>) -> Map<u128, ServerVal>
    decreases page.len(),
{
    if page.len() == 0 {
        tree
    } else {
        let before = absorbed(tree, page.drop_last());
        let n = page.last();
        if n.trashed {
            before.remove(n.id)
        } else {
            before.insert(n.id, n)
        }
    }
}

/// How the scan of a tree goes on after a page.
#[derive(Debug, Clone, Copy, PartialEq, Eq, Structural)]
pub enum TreeStep {
    /// Another page is to be pulled.
    More,
    /// The tree is complete.
    Complete,
    /// The last page carries no count of live nodes, so the server is an older one.
    Rollback,
    /// The server counts another number of live nodes than were collected.
    Changed { live: i64, collected: usize },
}

/// The live tree of a workspace, as far as it was pulled.
#[derive(Debug)]
pub struct ServerTree {
    pub nodes: BTreeMap<u128, ServerNode>,
}

impl ServerTree {
    pub open spec fn view(&self) -> Map<u128, ServerVal> {
        self.nodes@.map_values(|n: ServerNode| n.view())
    }

    pub fn new() -> (r: ServerTree)
        ensures
            r.view() == Map::<u128, ServerVal>::empty(),
    {
        let t = ServerTree { nodes: BTreeMap::new() };
        assert(t.view() =~= Map::<u128, ServerVal>::empty());
        t
    }

    fn absorb(&mut self, page: &Vec<ServerNode>)
        ensures
            final(self).view() == absorbed(old(self).view(), server_page(page@)),
    {
        let ghost start = self.view();
        let ghost all = server_page(page@);
        assert(all.take(0) =~= Seq::<ServerVal>::empty());
        for i in 0..page.len()
            invariant
                all == server_page(page@),
                self.view() == absorbed(start, all.take(i as int)),
        {
            assert(all.take(i + 1).drop_last() =~= all.take(i as int));
            assert(all.take(i + 1).last() == page@[i as int].view());
            let ghost before = self.view();
            let n = page[i].copy();
            if n.trashed {
                self.nodes.remove(&n.id);
                assert(self.view() =~= before.remove(n.id));
            } else {
                let ghost v = n.view();
                let id: u128 = n.id;
                self.nodes.insert(id, n);
                assert(self.view() =~= before.insert(id, v));
            }
        }
        assert(all.take(page@.len() as int) =~= all);
    }

    /// Take in a page. A short page is the last one, and closes the scan: without a count of live
    /// nodes nothing is taken in, and with a count that is not the number collected the account
    /// is inconclusive.
    pub fn take_page(&mut self, page: &Vec<ServerNode>, live_nodes: Option<i64>) -> (r: TreeStep)
        ensures
            if page@.len() < PAGE_LIMIT && live_nodes is None {
                r == TreeStep::Rollback && final(self).view() == old(self).view()
            } else {
                &&& final(self).view() == absorbed(old(self).view(), server_page(page@))
                &&& if page@.len() >= PAGE_LIMIT {
                    r == TreeStep::More
                } else if live_nodes->0 == final(self).view().dom().len() {
                    r == TreeStep::Complete
                } else {
                    r matches TreeStep::Changed { live, collected } && live == live_nodes->0
                        && collected == final(self).view().dom().len()
                }
            },
    {
        let head: bool = page.len() < PAGE_LIMIT;
        if head && live_nodes.is_none() {
            return TreeStep::Rollback;
        }
        self.absorb(page);
        match live_nodes {
            Some(live) if head => {
                let collected: usize = self.nodes.len();
                assert(self.view().dom() =~= self.nodes@.dom());
                if live >= 0 && live as u64 == collected as u64 {
                    TreeStep::Complete
                } else {
                    TreeStep::Changed { live, collected }
                }
            },
            _ => TreeStep::More,
        }
    }

    /// The node of that id.
    pub fn node<'a>(&'a self, id: u128) -> (r: Option<&'a ServerNode>)
        ensures
            match r {
                Some(n) => self.view().dom().contains(id) && self.view()[id] == n.view(),
                None => !self.view().dom().contains(id),
            },
    {
        self.nodes.get(&id)
    }

    /// The ids of the tree, in order.
    pub fn ids(&self) -> (r: Vec<u128>)
        ensures
            is_roll(r@, self.view().dom()),
            r@ == roll(self.view().dom()),
    {
        assert(self.view().dom() =~= self.nodes@.dom());
        keys_in_order(&self.nodes)
    }
}

/// What is expected on disk for one node.
#[derive(Debug)]
pub struct Expected {
    pub id: u128,
    pub kind: TrackedKind,
    /// The path that materializes the node: an attachment's is its marker's.
    pub spot: Spot,
    /// Where that is; `None` for a marker path that leaves the workspace's own directory.
    pub place: Option<Place>,
}

/// What an [`Expected`] entry says.
pub struct ExpectedVal {
    pub id: u128,
    pub kind: TrackedKind,
    pub spot: SpotVal,
    pub place: Option<PlaceVal>,
}

impl Expected {
    pub open spec fn view(&self) -> ExpectedVal {
        ExpectedVal {
            id: self.id,
            kind: self.kind,
            spot: self.spot.view(),
            place: opt_place(self.place),
        }
    }
}

pub open spec fn expected_vals(v: Seq<Expected>) -> Seq<ExpectedVal> {
    Seq::new(v.len(), |i: int| v[i].view())
}

/// Where the marker of an attachment is: where the state says, else beside the attachment.
pub open spec fn marker_spot(prev: Option<NodeVal>, local: Seq<char>, fold: Seq<char>) -> SpotVal {
    match prev {
        Some(NodeVal { marker: Some(m), .. }) => m,
        _ => SpotVal { path: local + ".docli"@, fold },
    }
}

/// Where a marker path leads. Only this workspace's own directory of markers counts outside the
/// mount.
pub open spec fn marker_place(path: Seq<char>, ws: u128) -> Option<PlaceVal> {
    if begins(path, ".docli/"@) {
        match leaf_of(path, ws) {
            Some(leaf) => Some(PlaceVal::Marker(leaf)),
            None => None,
        }
    } else {
        Some(PlaceVal::Mount(path))
    }
}

/// What a node of the server leads one to expect on disk. A parked node is expected nowhere, and
/// neither is one that a mirror never holds.
pub open spec fn expectation(
    nodes: Map<u128, NodeVal>,
    parked: Set<u128>,
    ws: u128,
    scope: Option<Seq<char>>,
    rules: FsRules,
    n: ServerVal,
    id: u128,
) -> Option<ExpectedVal> {
    if parked.contains(id) || kind_named(n.kind) is None || reserved_segment(n.path)
        || docli_segment(n.path) {
        None
    } else {
        let kind = kind_named(n.kind)->0;
        match in_scope(n.path, scope) {
            None => None,
            Some(rel) => {
                let local = spelled(rel, n.encoded, rules);
                if rel.len() == 0 || (kind == TrackedKind::Note && !n.note_named) || oversized(
                    local,
                    rules,
                ) is Some {
                    None
                } else if kind == TrackedKind::Attachment {
                    let spot = marker_spot(node_at(nodes, id), local, n.marker_fold);
                    Some(ExpectedVal { id, kind, spot, place: marker_place(spot.path, ws) })
                } else {
                    Some(
                        ExpectedVal {
                            id,
                            kind,
                            spot: SpotVal { path: local, fold: n.fold },
                            place: Some(PlaceVal::Mount(local)),
                        },
                    )
                }
            },
        }
    }
}

/// What the nodes of the given ids lead one to expect, in that order.
pub open spec fn expected_from(
    nodes: Map<u128, NodeVal>,
    parked: Set<u128>,
    ws: u128,
    scope: Option<Seq<char>>,
    rules: FsRules,
    tree: Map<u128, ServerVal>,
    ids: Seq<u128>,
) -> Seq<ExpectedVal>
    decreases ids.len(),
{
    if ids.len() == 0 {
        Seq::empty()
    } else {
        let before = expected_from(nodes, parked, ws, scope, rules, tree, ids.drop_last());
        match expectation(nodes, parked, ws, scope, rules, tree[ids.last()], ids.last()) {
            Some(e) => before.push(e),
            None => before,
        }
    }
}

/// What the whole tree leads one to expect.
pub open spec fn expected_of(
    state: &WsState,
    ws: u128,
    scope: Option<Seq<char>>,
    rules: FsRules,
    tree: Map<u128, ServerVal>,
) -> Seq<ExpectedVal> {
    expected_from(state.nodes_v(), state.parks_v().dom(), ws, scope, rules, tree, roll(tree.dom()))
}

fn expect(
    state: &WsState,
    ws: u128,
    scope: Option<&str>,
    rules: &FsRules,
    n: &ServerNode,
    id: u128,
) -> (r: Option<Expected>)
    ensures
        (match r {
            Some(e) => Some(e.view()),
            None => None,
        }) == expectation(
            state.nodes_v(),
            state.parks_v().dom(),
            ws,
            opt_ref(scope),
            *rules,
            n.view(),
            id,
        ),
{
    if state.park(id).is_some() || has_reserved_segment(n.path.as_str()) || in_docli_namespace(
        n.path.as_str(),
    ) {
        return None;
    }
    let kind: TrackedKind = match kind_of(n.kind.as_str()) {
        Some(k) => k,
        None => {
            return None;
        },
    };
    let rel: &str = match scope_relative(n.path.as_str(), scope) {
        Some(rel) if !rel.is_empty() => rel,
        _ => {
            return None;
        },
    };
    if kind == TrackedKind::Note && !n.note_named {
        return None;
    }
    let local: String = match project(rel, n.encoded.as_str(), rules) {
        Ok(l) => l,
        Err(_) => {
            return None;
        },
    };
    if kind != TrackedKind::Attachment {
        let place = Some(Place::Mount(local.clone()));
        return Some(
            Expected { id, kind, spot: Spot { path: local, fold: n.fold.clone() }, place },
        );
    }
    let remembered: Option<Spot> = match state.node(id) {
        Some(prev) => crate::state::copy_opt_spot(&prev.marker),
        None => None,
    };
    let spot: Spot = match remembered {
        Some(m) => m,
        None => Spot {
            path: cat2(local.as_str(), ".docli"),
            fold: n.marker_fold.clone(),
        },
    };
    let place: Option<Place> = if starts_with(spot.path.as_str(), ".docli/") {
        match relocated_leaf(spot.path.as_str(), ws) {
            Some(leaf) => Some(Place::Marker(leaf)),
            None => None,
        }
    } else {
        Some(Place::Mount(spot.path.clone()))
    };
    Some(Expected { id, kind, spot, place })
}

/// List what the tree leads one to expect on disk.
pub fn expectations(
    state: &WsState,
    ws: u128,
    scope: Option<&str>,
    rules: &FsRules,
    tree: &ServerTree,
) -> (r: Vec<Expected>)
    ensures
        expected_vals(r@) == expected_of(state, ws, opt_ref(scope), *rules, tree.view()),
{
    let ids = tree.ids();
    let mut out: Vec<Expected> = Vec::new();
    assert(ids@.take(0) =~= Seq::<u128>::empty());
    assert(expected_vals(out@) =~= Seq::<ExpectedVal>::empty());
    for i in 0..ids.len()
        invariant
            is_roll(ids@, tree.view().dom()),
            expected_vals(out@) == expected_from(
                state.nodes_v(),
                state.parks_v().dom(),
                ws,
                opt_ref(scope),
                *rules,
                tree.view(),
                ids@.take(i as int),
            ),
    {
        let id: u128 = ids[i];
        assert(ids@.contains(id));
        assert(ids@.take(i + 1).drop_last() =~= ids@.take(i as int));
        if let Some(n) = tree.node(id) {
            if let Some(e) = expect(state, ws, scope, rules, n, id) {
                let ghost before = out@;
                out.push(e);
                assert(expected_vals(out@) =~= expected_vals(before).push(e.view()));
            }
        }
    }
    assert(ids@.take(ids@.len() as int) =~= ids@);
    out
}

/// What was found where something was expected.
#[derive(Debug)]
pub enum Probe {
    Absent,
    Directory,
    File(Vec<u8>),
}

/// What a [`Probe`] found.
pub enum ProbeVal {
    Absent,
    Directory,
    File(Seq<u8>),
}

impl Probe {
    pub open spec fn view(&self) -> ProbeVal {
        match self {
            Probe::Absent => ProbeVal::Absent,
            Probe::Directory => ProbeVal::Directory,
            Probe::File(b) => ProbeVal::File(b@),
        }
    }
}

/// The find for the `k`th expectation; where nothing was looked up, nothing was found.
pub open spec fn probe_at(probes: Seq<Probe>, k: int) -> ProbeVal {
    if 0 <= k < probes.len() {
        probes[k].view()
    } else {
        ProbeVal::Absent
    }
}

/// The state tracks the node at that path.
pub open spec fn tracks(nodes: Map<u128, NodeVal>, id: u128, path: Seq<char>) -> bool {
    nodes.dom().contains(id) && if nodes[id].kind == TrackedKind::Attachment {
        nodes[id].marker is Some && nodes[id].marker->0.path == path
    } else {
        nodes[id].local.path == path
    }
}

/// The first of the given ids that the state tracks with that local path.
pub open spec fn tracked_at(nodes: Map<u128, NodeVal>, ids: Seq<u128>, path: Seq<char>) -> Option<
    u128,
>
    decreases ids.len(),
{
    if ids.len() == 0 {
        None
    } else {
        match tracked_at(nodes, ids.drop_last(), path) {
            Some(id) => Some(id),
            None => if nodes[ids.last()].local.path == path {
                Some(ids.last())
            } else {
                None
            },
        }
    }
}

pub open spec fn untracked_row(server_path: Seq<char>, path: Seq<char>) -> RowVal {
    RowVal {
        class: "untracked"@,
        path,
        detail: "server node "@ + server_path
            + " is present at this local path but the workspace state does not track it there — an interrupted sync or a manually created file; run `docli sync --full`"@,
    }
}

/// The row for something on disk that the state does not track there.
pub open spec fn untracked_rows(
    nodes: Map<u128, NodeVal>,
    n: ServerVal,
    id: u128,
    path: Seq<char>,
) -> Seq<RowVal> {
    if tracks(nodes, id, path) {
        Seq::empty()
    } else {
        seq![untracked_row(n.path, path)]
    }
}

pub open spec fn missing_row(what: Seq<char>, server_path: Seq<char>, path: Seq<char>) -> RowVal {
    RowVal {
        class: "missing-local"@,
        path,
        detail: what + " "@ + server_path + " is not in the mirror"@,
    }
}

pub open spec fn digest_row(path: Seq<char>) -> RowVal {
    RowVal {
        class: "digest-mismatch"@,
        path,
        detail: "the mirror bytes differ from the server body; if this is a local edit, it will never be synced and will be overwritten when the note next changes server-side"@,
    }
}

pub open spec fn id_row(path: Seq<char>, tracked_id: u128, id: u128) -> RowVal {
    RowVal {
        class: "id-mismatch"@,
        path,
        detail: "state tracks "@ + id_text(tracked_id) + ", the server says "@ + id_text(id),
    }
}

pub open spec fn drift_row(path: Seq<char>) -> RowVal {
    RowVal {
        class: "marker-drift"@,
        path,
        detail: "marker content differs from the attachment metadata returned by the server"@,
    }
}

/// The body that the server has for a note.
pub open spec fn body_of(n: ServerVal) -> Seq<char> {
    match n.body {
        Some(b) => b,
        None => Seq::empty(),
    }
}

/// What is wrong with one expectation.
pub open spec fn faults(
    nodes: Map<u128, NodeVal>,
    n: ServerVal,
    e: ExpectedVal,
    probe: ProbeVal,
) -> Seq<RowVal> {
    let path = e.spot.path;
    match e.kind {
        TrackedKind::Folder => if probe is Directory {
            untracked_rows(nodes, n, e.id, path)
        } else {
            seq![missing_row("folder"@, n.path, path)]
        },
        TrackedKind::Note => match probe {
            ProbeVal::File(bytes) => {
                let body = vstd::utf8::encode_utf8(body_of(n));
                let digest = if hex_of(sha256_of(bytes)) != hex_of(sha256_of(body)) {
                    seq![digest_row(path)]
                } else {
                    Seq::empty()
                };
                digest + match tracked_at(nodes, roll(nodes.dom()), path) {
                    Some(other) => if other != e.id {
                        seq![id_row(path, other, e.id)]
                    } else {
                        Seq::empty()
                    },
                    None => untracked_rows(nodes, n, e.id, path),
                }
            },
            _ => seq![missing_row("note"@, n.path, path)],
        },
        TrackedKind::Attachment => match probe {
            ProbeVal::File(bytes) => if bytes != vstd::utf8::encode_utf8(n.marker_text) {
                seq![drift_row(path)]
            } else {
                untracked_rows(nodes, n, e.id, path)
            },
            _ => seq![missing_row("marker for"@, n.path, path)],
        },
    }
}

/// What is wrong with the first `k` expectations, in their order.
pub open spec fn faults_upto(
    nodes: Map<u128, NodeVal>,
    tree: Map<u128, ServerVal>,
    es: Seq<ExpectedVal>,
    probes: Seq<Probe>,
    k: int,
) -> Seq<RowVal>
    decreases k,
{
    if k <= 0 {
        Seq::empty()
    } else {
        faults_upto(nodes, tree, es, probes, k - 1) + faults(
            nodes,
            tree[es[k - 1].id],
            es[k - 1],
            probe_at(probes, k - 1),
        )
    }
}

fn state_tracks(state: &WsState, id: u128, path: &str) -> (r: bool)
    ensures
        r == tracks(state.nodes_v(), id, path@),
{
    match state.node(id) {
        Some(n) => if n.kind == TrackedKind::Attachment {
            match &n.marker {
                Some(m) => same(m.path.as_str(), path),
                None => false,
            }
        } else {
            same(n.local.path.as_str(), path)
        },
        None => false,
    }
}

/// The node that the state tracks with a local path, spelled exactly so.
pub fn id_at_local(state: &WsState, path: &str) -> (r: Option<u128>)
    ensures
        r == tracked_at(state.nodes_v(), roll(state.nodes_v().dom()), path@),
{
    let ids = state.node_ids();
    let ghost nodes = state.nodes_v();
    assert(ids@.take(0) =~= Seq::<u128>::empty());
    for i in 0..ids.len()
        invariant
            nodes == state.nodes_v(),
            is_roll(ids@, nodes.dom()),
            ids@ == roll(nodes.dom()),
            tracked_at(nodes, ids@.take(i as int), path@) is None,
    {
        let id: u128 = ids[i];
        assert(ids@.contains(id));
        assert(ids@.take(i + 1).drop_last() =~= ids@.take(i as int));
        if let Some(n) = state.node(id) {
            if same(n.local.path.as_str(), path) {
                assert(tracked_at(nodes, ids@.take(i + 1), path@) == Some(id));
                proof {
                    lemma_tracked_at_first(nodes, ids@, i + 1, path@);
                }
                return Some(id);
            }
        }
    }
    assert(ids@.take(ids@.len() as int) =~= ids@);
    None
}

proof fn lemma_tracked_at_first(nodes: Map<u128, NodeVal>, ids: Seq<u128>, k: int, path: Seq<char>)
    requires
        0 <= k <= ids.len(),
        tracked_at(nodes, ids.take(k), path) is Some,
    ensures
        tracked_at(nodes, ids, path) == tracked_at(nodes, ids.take(k), path),
    decreases ids.len() - k,
{
    if k < ids.len() {
        assert(ids.take(k + 1).drop_last() =~= ids.take(k));
        lemma_tracked_at_first(nodes, ids, k + 1, path);
    } else {
        assert(ids.take(k) =~= ids);
    }
}

fn same_bytes(a: &[u8], b: &[u8]) -> (r: bool)
    ensures
        r == (a@ == b@),
{
    if a.len() != b.len() {
        return false;
    }
    for i in 0..a.len()
        invariant
            a@.len() == b@.len(),
            forall|j: int| 0 <= j < i ==> a@[j] == b@[j],
    {
        if a[i] != b[i] {
            return false;
        }
    }
    assert(a@ =~= b@);
    true
}

fn note_untracked(out: &mut Vec<Discrepancy>, state: &WsState, n: &ServerNode, id: u128, path: &str)
    ensures
        rows(final(out)@) == rows(old(out)@) + untracked_rows(
            state.nodes_v(),
            n.view(),
            id,
            path@,
        ),
{
    if !state_tracks(state, id, path) {
        note(
            out,
            "untracked",
            path,
            cat3(
                "server node ",
                n.path.as_str(),
                " is present at this local path but the workspace state does not track it there — an interrupted sync or a manually created file; run `docli sync --full`",
            ),
        );
    }
    assert(rows(out@) =~= rows(old(out)@) + untracked_rows(
        state.nodes_v(),
        n.view(),
        id,
        path@,
    ));
}

fn note_missing(out: &mut Vec<Discrepancy>, what: &str, n: &ServerNode, path: &str)
    ensures
        rows(final(out)@) == rows(old(out)@) + seq![missing_row(what@, n.view().path, path@)],
{
    note(
        out,
        "missing-local",
        path,
        cat4(what, " ", n.path.as_str(), " is not in the mirror"),
    );
    assert(rows(out@) =~= rows(old(out)@) + seq![missing_row(what@, n.view().path, path@)]);
}

/// Hold one expectation against what was found.
pub fn examine(
    out: &mut Vec<Discrepancy>,
    state: &WsState,
    n: &ServerNode,
    e: &Expected,
    probe: &Probe,
)
    ensures
        rows(final(out)@) == rows(old(out)@) + faults(
            state.nodes_v(),
            n.view(),
            e.view(),
            probe.view(),
        ),
{
    let ghost start = rows(out@);
    let path: &str = e.spot.path.as_str();
    match e.kind {
        TrackedKind::Folder => match probe {
            Probe::Directory => note_untracked(out, state, n, e.id, path),
            _ => note_missing(out, "folder", n, path),
        },
        TrackedKind::Note => match probe {
            Probe::File(bytes) => {
                let body: &str = match &n.body {
                    Some(b) => b.as_str(),
                    None => "",
                };
                proof {
                    reveal_strlit("");
                    assert(body@ =~= body_of(n.view()));
                }
                let server_sha = sha_hex(body.as_bytes());
                let disk_sha = sha_hex(bytes);
                if !same(disk_sha.as_str(), server_sha.as_str()) {
                    note(
                        out,
                        "digest-mismatch",
                        path,
                        "the mirror bytes differ from the server body; if this is a local edit, it will never be synced and will be overwritten when the note next changes server-side".to_owned(),
                    );
                }
                let ghost mid = rows(out@);
                match id_at_local(state, path) {
                    Some(other) => {
                        if other != e.id {
                            let a = print_id(other);
                            let b = print_id(e.id);
                            note(
                                out,
                                "id-mismatch",
                                path,
                                cat4("state tracks ", a.as_str(), ", the server says ", b.as_str()),
                            );
                            assert(rows(out@).last().detail =~= id_row(path@, other, e.id).detail);
                        }
                    },
                    None => note_untracked(out, state, n, e.id, path),
                }
                assert(rows(out@) =~= start + faults(
                    state.nodes_v(),
                    n.view(),
                    e.view(),
                    probe.view(),
                ));
            },
            _ => note_missing(out, "note", n, path),
        },
        TrackedKind::Attachment => match probe {
            Probe::File(bytes) => {
                if !same_bytes(bytes, n.marker_text.as_str().as_bytes()) {
                    note(
                        out,
                        "marker-drift",
                        path,
                        "marker content differs from the attachment metadata returned by the server".to_owned(),
                    );
                    assert(rows(out@) =~= start + seq![drift_row(path@)]);
                } else {
                    note_untracked(out, state, n, e.id, path);
                }
            },
            _ => note_missing(out, "marker for", n, path),
        },
    }
}

pub open spec fn collision_row(path: Seq<char>, winner: u128) -> RowVal {
    RowVal {
        class: "fold-collision"@,
        path,
        detail: "this server path maps to the same physical path as node "@ + id_text(winner)
            + " on this filesystem — `docli sync` will leave one of the conflicting nodes unmaterialized"@,
    }
}

/// Who holds each fold key, as an index into the expectations, and what is to be said of those
/// who do not get theirs.
pub struct Holders {
    pub by_fold: Map<Seq<char>, usize>,
    pub rows: Seq<RowVal>,
}

/// Settle the first `k` expectations: a fold key goes to the first that asks for it, unless a
/// later one is tracked at its exact path and the holder is not.
pub open spec fn holders(nodes: Map<u128, NodeVal>, es: Seq<ExpectedVal>, k: int) -> Holders
    decreases k,
{
    if k <= 0 {
        Holders { by_fold: Map::empty(), rows: Seq::empty() }
    } else {
        let before = holders(nodes, es, k - 1);
        let e = es[k - 1];
        let fold = e.spot.fold;
        if !before.by_fold.dom().contains(fold) {
            Holders { by_fold: before.by_fold.insert(fold, (k - 1) as usize), ..before }
        } else {
            let cur = es[before.by_fold[fold] as int];
            if cur.id == e.id {
                before
            } else if tracks(nodes, e.id, e.spot.path) && !tracks(nodes, cur.id, cur.spot.path) {
                Holders {
                    by_fold: before.by_fold.insert(fold, (k - 1) as usize),
                    rows: before.rows.push(collision_row(cur.spot.path, e.id)),
                }
            } else {
                Holders { rows: before.rows.push(collision_row(e.spot.path, cur.id)), ..before }
            }
        }
    }
}

/// Every holder is one of the settled expectations, and asks for that key.
pub proof fn lemma_holders(nodes: Map<u128, NodeVal>, es: Seq<ExpectedVal>, k: int)
    requires
        0 <= k <= es.len(),
        es.len() <= usize::MAX,
    ensures
        forall|f: Seq<char>| #[trigger]
            holders(nodes, es, k).by_fold.dom().contains(f) ==> holders(nodes, es, k).by_fold[f] < k
                && es[holders(nodes, es, k).by_fold[f] as int].spot.fold == f,
    decreases k,
{
    if k > 0 {
        lemma_holders(nodes, es, k - 1);
        let before = holders(nodes, es, k - 1);
        let after = holders(nodes, es, k);
        assert forall|f: Seq<char>| #[trigger] after.by_fold.dom().contains(f) implies after.by_fold[f]
            < k && es[after.by_fold[f] as int].spot.fold == f by {
            if before.by_fold.dom().contains(f) {
            }
        }
    }
}

fn note_collision(out: &mut Vec<Discrepancy>, path: &str, winner: u128)
    ensures
        rows(final(out)@) == rows(old(out)@).push(collision_row(path@, winner)),
{
    let w = print_id(winner);
    note(
        out,
        "fold-collision",
        path,
        cat3(
            "this server path maps to the same physical path as node ",
            w.as_str(),
            " on this filesystem — `docli sync` will leave one of the conflicting nodes unmaterialized",
        ),
    );
}

/// Settle who holds each fold key. Two nodes with one key are two claims on one physical file,
/// which is a finding even where the disk looks right.
pub fn settle_holders(
    out: &mut Vec<Discrepancy>,
    state: &WsState,
    es: &Vec<Expected>,
) -> (r: StringHashMap<usize>)
    ensures
        r@ == holders(state.nodes_v(), expected_vals(es@), es@.len() as int).by_fold,
        rows(final(out)@) == rows(old(out)@) + holders(
            state.nodes_v(),
            expected_vals(es@),
            es@.len() as int,
        ).rows,
{
    let mut by_fold: StringHashMap<usize> = StringHashMap::new();
    let ghost nodes = state.nodes_v();
    let ghost all = expected_vals(es@);
    let ghost start = rows(out@);
    assert(by_fold@ =~= holders(nodes, all, 0).by_fold);
    assert(start =~= start + holders(nodes, all, 0).rows);
    let n: usize = es.len();
    for i in 0..n
        invariant
            n == es@.len(),
            nodes == state.nodes_v(),
            all == expected_vals(es@),
            by_fold@ == holders(nodes, all, i as int).by_fold,
            rows(out@) == start + holders(nodes, all, i as int).rows,
    {
        let ghost before = holders(nodes, all, i as int);
        let ghost after = holders(nodes, all, i + 1);
        proof {
            lemma_holders(nodes, all, i as int);
        }
        let e: &Expected = &es[i];
        assert(all[i as int] == e.view());
        let held: Option<usize> = match by_fold.get(e.spot.fold.as_str()) {
            Some(c) => Some(*c),
            None => None,
        };
        match held {
            None => {
                by_fold.insert(e.spot.fold.clone(), i);
                assert(by_fold@ =~= after.by_fold);
            },
            Some(c) => {
                assert(before.by_fold.dom().contains(e.spot.fold@));
                let cur: &Expected = &es[c];
                assert(all[c as int] == cur.view());
                if cur.id != e.id {
                    if state_tracks(state, e.id, e.spot.path.as_str()) && !state_tracks(
                        state,
                        cur.id,
                        cur.spot.path.as_str(),
                    ) {
                        by_fold.insert(e.spot.fold.clone(), i);
                        note_collision(out, cur.spot.path.as_str(), e.id);
                        assert(by_fold@ =~= after.by_fold);
                    } else {
                        note_collision(out, e.spot.path.as_str(), cur.id);
                    }
                }
                assert(rows(out@) =~= start + after.rows);
            },
        }
    }
    by_fold
}

/// Something that was found in the mirror.
#[derive(Debug)]
pub struct DiskEntry {
    /// The path inside the mount, with `/` between its components.
    pub path: String,
    pub fold: String,
    pub is_dir: bool,
    /// The name is one that an interrupted write leaves behind.
    pub write_temp: bool,
}

/// What a [`DiskEntry`] says.
pub struct DiskVal {
    pub path: Seq<char>,
    pub fold: Seq<char>,
    pub is_dir: bool,
    pub write_temp: bool,
}

impl DiskEntry {
    pub open spec fn view(&self) -> DiskVal {
        DiskVal {
            path: self.path@,
            fold: self.fold@,
            is_dir: self.is_dir,
            write_temp: self.write_temp,
        }
    }
}

pub open spec fn residue_row(path: Seq<char>) -> RowVal {
    RowVal {
        class: "crash-residue"@,
        path,
        detail: "a temporary file left by an interrupted docli write — `docli sync --full` removes it"@,
    }
}

/// What is to be said of an entry of the mirror. The mount's control files are its own.
pub open spec fn disk_rows(d: DiskVal, folds: Set<Seq<char>>, controls: Seq<Seq<char>>) -> Seq<
    RowVal,
> {
    if controls.contains(d.path) || folds.contains(d.fold) {
        Seq::empty()
    } else if d.is_dir {
        seq![
            RowVal {
                class: "missing-remote"@,
                path: d.path,
                detail: "directory exists locally but not on the server"@,
            },
        ]
    } else if d.write_temp {
        seq![residue_row(d.path)]
    } else {
        seq![
            RowVal {
                class: "missing-remote"@,
                path: d.path,
                detail: "file exists locally but not on the server (hand-created files in the mirror are never synced)"@,
            },
        ]
    }
}

/// What is to be said of the first `k` entries.
pub open spec fn disk_upto(
    disk: Seq<DiskEntry>,
    folds: Set<Seq<char>>,
    controls: Seq<Seq<char>>,
    k: int,
) -> Seq<RowVal>
    decreases k,
{
    if k <= 0 {
        Seq::empty()
    } else {
        disk_upto(disk, folds, controls, k - 1) + disk_rows(disk[k - 1].view(), folds, controls)
    }
}

/// Hold what lies in the mirror against what is expected there.
pub fn scan_disk(
    out: &mut Vec<Discrepancy>,
    disk: &Vec<DiskEntry>,
    expected: &StringHashMap<usize>,
    controls: &Vec<String>,
)
    ensures
        rows(final(out)@) == rows(old(out)@) + disk_upto(
            disk@,
            expected@.dom(),
            strs(controls@),
            disk@.len() as int,
        ),
{
    let ghost start = rows(out@);
    assert(start =~= start + disk_upto(disk@, expected@.dom(), strs(controls@), 0));
    for i in 0..disk.len()
        invariant
            rows(out@) == start + disk_upto(disk@, expected@.dom(), strs(controls@), i as int),
    {
        let ghost before = rows(out@);
        let d: &DiskEntry = &disk[i];
        let control: bool = crate::text::has_str(controls, d.path.as_str());
        if !control && !expected.contains_key(d.fold.as_str()) {
            if d.is_dir {
                note(
                    out,
                    "missing-remote",
                    d.path.as_str(),
                    "directory exists locally but not on the server".to_owned(),
                );
            } else if d.write_temp {
                note(
                    out,
                    "crash-residue",
                    d.path.as_str(),
                    "a temporary file left by an interrupted docli write — `docli sync --full` removes it".to_owned(),
                );
            } else {
                note(
                    out,
                    "missing-remote",
                    d.path.as_str(),
                    "file exists locally but not on the server (hand-created files in the mirror are never synced)".to_owned(),
                );
            }
        }
        assert(rows(out@) =~= before + disk_rows(d.view(), expected@.dom(), strs(controls@)));
        assert(rows(out@) =~= start + disk_upto(disk@, expected@.dom(), strs(controls@), i + 1));
    }
}

/// A file in the workspace's own directory of markers.
#[derive(Debug)]
pub struct Leaf {
    pub name: String,
    /// The name is one that an interrupted write leaves behind.
    pub write_temp: bool,
}

/// Some expectation names that leaf in the workspace's own directory of markers.
pub open spec fn names_leaf(es: Seq<ExpectedVal>, ws: u128, leaf: Seq<char>) -> bool {
    exists|j: int| 0 <= j < es.len() && leaf_of((#[trigger] es[j]).spot.path, ws) == Some(leaf)
}

/// What is to be said of a file in the directory of markers.
pub open spec fn stray_rows(es: Seq<ExpectedVal>, ws: u128, leaf: Leaf) -> Seq<RowVal> {
    let path = ".docli/markers/"@ + id_text(ws) + "/"@ + leaf.name@;
    if names_leaf(es, ws, leaf.name@) {
        Seq::empty()
    } else if leaf.write_temp {
        seq![residue_row(path)]
    } else {
        seq![
            RowVal {
                class: "missing-remote"@,
                path,
                detail: "stray relocated marker — no server attachment names it; `docli sync --full` removes it"@,
            },
        ]
    }
}

/// What is to be said of the first `k` files.
pub open spec fn stray_upto(es: Seq<ExpectedVal>, ws: u128, leaves: Seq<Leaf>, k: int) -> Seq<RowVal>
    decreases k,
{
    if k <= 0 {
        Seq::empty()
    } else {
        stray_upto(es, ws, leaves, k - 1) + stray_rows(es, ws, leaves[k - 1])
    }
}

fn leaf_is_named(es: &Vec<Expected>, ws: u128, leaf: &str) -> (r: bool)
    ensures
        r == names_leaf(expected_vals(es@), ws, leaf@),
{
    let ghost all = expected_vals(es@);
    for j in 0..es.len()
        invariant
            all == expected_vals(es@),
            forall|i: int|
                0 <= i < j ==> leaf_of((#[trigger] all[i]).spot.path, ws) != Some(leaf@),
    {
        assert(all[j as int] == es@[j as int].view());
        if let Some(l) = relocated_leaf(es[j].spot.path.as_str(), ws) {
            if same(l.as_str(), leaf) {
                return true;
            }
        }
    }
    false
}

/// Find the files in the workspace's own directory of markers that nothing expects.
pub fn scan_markers(out: &mut Vec<Discrepancy>, es: &Vec<Expected>, ws: u128, leaves: &Vec<Leaf>)
    ensures
        rows(final(out)@) == rows(old(out)@) + stray_upto(
            expected_vals(es@),
            ws,
            leaves@,
            leaves@.len() as int,
        ),
{
    let ghost start = rows(out@);
    let ghost all = expected_vals(es@);
    assert(start =~= start + stray_upto(all, ws, leaves@, 0));
    for i in 0..leaves.len()
        invariant
            all == expected_vals(es@),
            rows(out@) == start + stray_upto(all, ws, leaves@, i as int),
    {
        let ghost before = rows(out@);
        let leaf: &Leaf = &leaves[i];
        if !leaf_is_named(es, ws, leaf.name.as_str()) {
            let w = print_id(ws);
            let path = cat4(".docli/markers/", w.as_str(), "/", leaf.name.as_str());
            assert(path@ =~= ".docli/markers/"@ + id_text(ws) + "/"@ + leaf.name@);
            if leaf.write_temp {
                note(
                    out,
                    "crash-residue",
                    path.as_str(),
                    "a temporary file left by an interrupted docli write — `docli sync --full` removes it".to_owned(),
                );
            } else {
                note(
                    out,
                    "missing-remote",
                    path.as_str(),
                    "stray relocated marker — no server attachment names it; `docli sync --full` removes it".to_owned(),
                );
            }
        }
        assert(rows(out@) =~= before + stray_rows(all, ws, *leaf));
        assert(rows(out@) =~= start + stray_upto(all, ws, leaves@, i + 1));
    }
}

pub open spec fn class_name(c: ParkClass) -> Seq<char> {
    match c {
        ParkClass::Lasting => "Structural"@,
        ParkClass::Transient => "Transient"@,
    }
}

pub open spec fn park_row(id: u128, p: ParkVal) -> RowVal {
    RowVal {
        class: "parked"@,
        path: p.server_path,
        detail: class_name(p.class) + " delivery for node "@ + id_text(id) + " is parked: "@
            + p.reason,
    }
}

/// One row for each park, in the order of the ids.
pub open spec fn park_rows(parks: Map<u128, ParkVal>) -> Seq<RowVal> {
    let ids = roll(parks.dom());
    Seq::new(ids.len(), |i: int| park_row(ids[i], parks[ids[i]]))
}

fn note_parks(out: &mut Vec<Discrepancy>, state: &WsState)
    ensures
        rows(final(out)@) == rows(old(out)@) + park_rows(state.parks_v()),
{
    let ids = state.park_ids();
    let ghost parks = state.parks_v();
    let ghost start = rows(out@);
    assert(start =~= start + park_rows(parks).take(0));
    for i in 0..ids.len()
        invariant
            parks == state.parks_v(),
            ids@ == roll(parks.dom()),
            is_roll(ids@, parks.dom()),
            rows(out@) == start + park_rows(parks).take(i as int),
    {
        let id: u128 = ids[i];
        assert(ids@.contains(id));
        if let Some(p) = state.park(id) {
            let class: &str = match p.class {
                ParkClass::Lasting => "Structural",
                ParkClass::Transient => "Transient",
            };
            let t = print_id(id);
            note(
                out,
                "parked",
                p.server_path.as_str(),
                cat5(class, " delivery for node ", t.as_str(), " is parked: ", p.reason.as_str()),
            );
            assert(park_rows(parks).take(i + 1) =~= park_rows(parks).take(i as int).push(
                park_row(id, parks[id]),
            ));
            assert(rows(out@) =~= start + park_rows(parks).take(i + 1));
        }
    }
    assert(park_rows(parks).take(ids@.len() as int) =~= park_rows(parks));
}

pub open spec fn orphan_row(id: u128, n: NodeVal) -> RowVal {
    RowVal {
        class: "state-orphan"@,
        path: n.local.path,
        detail: "state tracks node "@ + id_text(id) + ", which is no longer on the server"@,
    }
}

/// One row for each of the first `k` tracked nodes that the server does not have.
pub open spec fn orphans_upto(
    nodes: Map<u128, NodeVal>,
    tree: Set<u128>,
    ids: Seq<u128>,
    k: int,
) -> Seq<RowVal>
    decreases k,
{
    if k <= 0 {
        Seq::empty()
    } else {
        let before = orphans_upto(nodes, tree, ids, k - 1);
        if tree.contains(ids[k - 1]) {
            before
        } else {
            before.push(orphan_row(ids[k - 1], nodes[ids[k - 1]]))
        }
    }
}

pub open spec fn orphan_rows(nodes: Map<u128, NodeVal>, tree: Set<u128>) -> Seq<RowVal> {
    orphans_upto(nodes, tree, roll(nodes.dom()), roll(nodes.dom()).len() as int)
}

fn note_orphans(out: &mut Vec<Discrepancy>, state: &WsState, tree: &ServerTree)
    ensures
        rows(final(out)@) == rows(old(out)@) + orphan_rows(state.nodes_v(), tree.view().dom()),
{
    let ids = state.node_ids();
    let ghost nodes = state.nodes_v();
    let ghost live = tree.view().dom();
    let ghost start = rows(out@);
    assert(start =~= start + orphans_upto(nodes, live, ids@, 0));
    for i in 0..ids.len()
        invariant
            nodes == state.nodes_v(),
            live == tree.view().dom(),
            is_roll(ids@, nodes.dom()),
            rows(out@) == start + orphans_upto(nodes, live, ids@, i as int),
    {
        let id: u128 = ids[i];
        assert(ids@.contains(id));
        if tree.node(id).is_none() {
            if let Some(n) = state.node(id) {
                let t = print_id(id);
                note(
                    out,
                    "state-orphan",
                    n.local.path.as_str(),
                    cat3("state tracks node ", t.as_str(), ", which is no longer on the server"),
                );
            }
        }
        assert(rows(out@) =~= start + orphans_upto(nodes, live, ids@, i + 1));
    }
}

/// What was found on disk.
#[derive(Debug)]
pub struct Findings {
    /// One find for each expectation, in their order.
    pub probes: Vec<Probe>,
    /// Everything that lies in the mirror.
    pub disk: Vec<DiskEntry>,
    /// The files in the workspace's own directory of markers.
    pub leaves: Vec<Leaf>,
}

/// How far the state says that the mirror has come.
#[derive(Debug, Clone, Copy, PartialEq, Eq)]
pub struct Progress {
    /// The mirror is to be built anew from the start.
    pub from_zero: bool,
    /// Everything that the server had was taken.
    pub at_head: bool,
}

/// A sync or a repair has not been completed.
pub open spec fn is_pending(p: Progress) -> bool {
    p.from_zero || !p.at_head
}

impl Progress {
    /// Is a sync or a repair still to be completed?
    pub fn pending(self) -> (r: bool)
        ensures
            r == is_pending(self),
    {
        self.from_zero || !self.at_head
    }
}

/// What the state itself says: that it is gone, that a repair is due.
pub open spec fn opening_rows(dir: Seq<char>, state_found: bool, progress: Progress) -> Seq<
    RowVal,
> {
    let gone = if state_found {
        Seq::empty()
    } else {
        seq![
            RowVal {
                class: "state-missing"@,
                path: dir,
                detail: "the workspace state file is missing but the mirror still exists — run `docli sync` to rebuild the state and repair the mirror"@,
            },
        ]
    };
    gone + if is_pending(progress) {
        seq![
            RowVal {
                class: "repair-pending"@,
                path: dir,
                detail: "the durable state says a sync/repair has not completed — run `docli sync`"@,
            },
        ]
    } else {
        Seq::empty()
    }
}

/// The whole account of a mount.
pub open spec fn account(
    dir: Seq<char>,
    state: &WsState,
    state_found: bool,
    progress: Progress,
    ws: u128,
    scope: Option<Seq<char>>,
    rules: FsRules,
    tree: Map<u128, ServerVal>,
    controls: Seq<Seq<char>>,
    f: Findings,
) -> Seq<RowVal> {
    let es = expected_of(state, ws, scope, rules, tree);
    let held = holders(state.nodes_v(), es, es.len() as int);
    opening_rows(dir, state_found, progress) + park_rows(state.parks_v()) + faults_upto(
        state.nodes_v(),
        tree,
        es,
        f.probes@,
        es.len() as int,
    ) + held.rows + disk_upto(f.disk@, held.by_fold.dom(), controls, f.disk@.len() as int)
        + stray_upto(es, ws, f.leaves@, f.leaves@.len() as int) + orphan_rows(
        state.nodes_v(),
        tree.dom(),
    )
}

proof fn lemma_expected_ids(
    nodes: Map<u128, NodeVal>,
    parked: Set<u128>,
    ws: u128,
    scope: Option<Seq<char>>,
    rules: FsRules,
    tree: Map<u128, ServerVal>,
    ids: Seq<u128>,
)
    ensures
        forall|k: int|
            0 <= k < expected_from(nodes, parked, ws, scope, rules, tree, ids).len() ==> {
                let e = #[trigger] expected_from(nodes, parked, ws, scope, rules, tree, ids)[k];
                ids.contains(e.id) && !parked.contains(e.id)
            },
    decreases ids.len(),
{
    if ids.len() > 0 {
        let short = ids.drop_last();
        lemma_expected_ids(nodes, parked, ws, scope, rules, tree, short);
        let all = expected_from(nodes, parked, ws, scope, rules, tree, ids);
        let before = expected_from(nodes, parked, ws, scope, rules, tree, short);
        assert forall|k: int| 0 <= k < all.len() implies {
            let e = #[trigger] all[k];
            ids.contains(e.id) && !parked.contains(e.id)
        } by {
            if k < before.len() {
                assert(all[k] == before[k]);
                let i = choose|i: int| 0 <= i < short.len() && short[i] == before[k].id;
                assert(ids[i] == all[k].id);
            } else {
                assert(ids[ids.len() - 1] == all[k].id);
            }
        }
    }
}

/// The account of a mount: the state's own rows first, then the parks, what is wrong with each
/// expectation, what collides, what lies on disk unexpected, and what the server no longer has.
pub fn doctor_mount(
    dir: &str,
    state: &WsState,
    state_found: bool,
    progress: Progress,
    ws: u128,
    scope: Option<&str>,
    rules: &FsRules,
    tree: &ServerTree,
    controls: &Vec<String>,
    findings: &Findings,
) -> (r: Vec<Discrepancy>)
    ensures
        rows(r@) == account(
            dir@,
            state,
            state_found,
            progress,
            ws,
            opt_ref(scope),
            *rules,
            tree.view(),
            strs(controls@),
            *findings,
        ),
{
    let mut out: Vec<Discrepancy> = Vec::new();
    if !state_found {
        note(
            &mut out,
            "state-missing",
            dir,
            "the workspace state file is missing but the mirror still exists — run `docli sync` to rebuild the state and repair the mirror".to_owned(),
        );
    }
    if progress.pending() {
        note(
            &mut out,
            "repair-pending",
            dir,
            "the durable state says a sync/repair has not completed — run `docli sync`".to_owned(),
        );
    }
    assert(rows(out@) =~= opening_rows(dir@, state_found, progress));
    note_parks(&mut out, state);
    let es = expectations(state, ws, scope, rules, tree);
    let ghost all = expected_vals(es@);
    let ghost nodes = state.nodes_v();
    let ghost before = rows(out@);
    proof {
        let ids = roll(tree.view().dom());
        lemma_expected_ids(
            nodes,
            state.parks_v().dom(),
            ws,
            opt_ref(scope),
            *rules,
            tree.view(),
            ids,
        );
    }
    let tree_ids = tree.ids();
    assert(before =~= before + faults_upto(nodes, tree.view(), all, findings.probes@, 0));
    let absent = Probe::Absent;
    for k in 0..es.len()
        invariant
            all == expected_vals(es@),
            nodes == state.nodes_v(),
            absent.view() == ProbeVal::Absent,
            is_roll(tree_ids@, tree.view().dom()),
            forall|j: int| 0 <= j < all.len() ==> tree_ids@.contains((#[trigger] all[j]).id),
            rows(out@) == before + faults_upto(
                nodes,
                tree.view(),
                all,
                findings.probes@,
                k as int,
            ),
    {
        let e: &Expected = &es[k];
        assert(all[k as int] == e.view());
        let ghost here = rows(out@);
        let probe: &Probe = if k < findings.probes.len() {
            &findings.probes[k]
        } else {
            &absent
        };
        if let Some(n) = tree.node(e.id) {
            examine(&mut out, state, n, e, probe);
        }
        assert(rows(out@) =~= before + faults_upto(
            nodes,
            tree.view(),
            all,
            findings.probes@,
            k + 1,
        ));
    }
    let held = settle_holders(&mut out, state, &es);
    scan_disk(&mut out, &findings.disk, &held, controls);
    scan_markers(&mut out, &es, ws, &findings.leaves);
    note_orphans(&mut out, state, tree);
    out
}

/// A parked node is the park's own finding: nothing is expected of it on disk, so it can neither
/// be missing nor collide.
pub proof fn parked_nodes_are_expected_nowhere(
    state: &WsState,
    ws: u128,
    scope: Option<Seq<char>>,
    rules: FsRules,
    tree: Map<u128, ServerVal>,
    k: int,
)
    requires
        0 <= k < expected_of(state, ws, scope, rules, tree).len(),
    ensures
        !state.parks_v().dom().contains(expected_of(state, ws, scope, rules, tree)[k].id),
{
    lemma_expected_ids(
        state.nodes_v(),
        state.parks_v().dom(),
        ws,
        scope,
        rules,
        tree,
        roll(tree.dom()),
    );
}

proof fn lemma_no_faults(
    nodes: Map<u128, NodeVal>,
    tree: Map<u128, ServerVal>,
    es: Seq<ExpectedVal>,
    probes: Seq<Probe>,
    k: int,
)
    requires
        faults_upto(nodes, tree, es, probes, k).len() == 0,
    ensures
        forall|j: int|
            0 <= j < k ==> faults(
                nodes,
                tree[es[j].id],
                #[trigger] es[j],
                probe_at(probes, j),
            ).len() == 0,
    decreases k,
{
    if k > 0 {
        lemma_no_faults(nodes, tree, es, probes, k - 1);
    }
}

proof fn lemma_no_collisions(nodes: Map<u128, NodeVal>, es: Seq<ExpectedVal>, k: int, j: int)
    requires
        0 <= j < k <= es.len(),
        es.len() <= usize::MAX,
        holders(nodes, es, k).rows.len() == 0,
    ensures
        es[holders(nodes, es, k).by_fold[es[j].spot.fold] as int].id == es[j].id,
        holders(nodes, es, k).by_fold.dom().contains(es[j].spot.fold),
    decreases k,
{
    let before = holders(nodes, es, k - 1);
    if j < k - 1 {
        lemma_no_collisions(nodes, es, k - 1, j);
    }
    lemma_holders(nodes, es, k - 1);
}

proof fn lemma_no_strangers(
    disk: Seq<DiskEntry>,
    folds: Set<Seq<char>>,
    controls: Seq<Seq<char>>,
    k: int,
)
    requires
        disk_upto(disk, folds, controls, k).len() == 0,
    ensures
        forall|j: int|
            0 <= j < k ==> controls.contains((#[trigger] disk[j]).path@) || folds.contains(
                disk[j].fold@,
            ),
    decreases k,
{
    if k > 0 {
        lemma_no_strangers(disk, folds, controls, k - 1);
        assert(disk_rows(disk[k - 1].view(), folds, controls).len() == 0);
    }
}

proof fn lemma_no_orphans(nodes: Map<u128, NodeVal>, tree: Set<u128>, ids: Seq<u128>, k: int)
    requires
        orphans_upto(nodes, tree, ids, k).len() == 0,
    ensures
        forall|j: int| 0 <= j < k ==> tree.contains(#[trigger] ids[j]),
    decreases k,
{
    if k > 0 {
        lemma_no_orphans(nodes, tree, ids, k - 1);
    }
}

/// What an expectation that raises no finding has on disk: the directory of a folder, the body
/// of a note, the marker of an attachment.
pub open spec fn matched(n: ServerVal, e: ExpectedVal, probe: ProbeVal) -> bool {
    match e.kind {
        TrackedKind::Folder => probe is Directory,
        TrackedKind::Note => probe matches ProbeVal::File(bytes) && hex_of(sha256_of(bytes))
            == hex_of(
            sha256_of(
                vstd::utf8::encode_utf8(
                    match n.body {
                        Some(b) => b,
                        None => Seq::empty(),
                    },
                ),
            ),
        ),
        TrackedKind::Attachment => probe matches ProbeVal::File(bytes) && bytes
            == vstd::utf8::encode_utf8(n.marker_text),
    }
}

/// The state tracks the expected node, at the place where it is expected.
pub open spec fn tracked_there(nodes: Map<u128, NodeVal>, e: ExpectedVal) -> bool {
    ||| tracks(nodes, e.id, e.spot.path)
    ||| e.kind == TrackedKind::Note && nodes.dom().contains(e.id) && nodes[e.id].local.path
        == e.spot.path
}

/// Every expectation is met on disk and tracked where it is, no two nodes share a physical path,
/// whatever lies in the mirror is expected there or is a control file of the mount, and whatever
/// lies in the workspace's directory of markers is the marker of an expected attachment.
pub open spec fn explained(
    nodes: Map<u128, NodeVal>,
    es: Seq<ExpectedVal>,
    ws: u128,
    tree: Map<u128, ServerVal>,
    controls: Seq<Seq<char>>,
    f: Findings,
) -> bool {
    &&& forall|k: int|
        0 <= k < es.len() ==> matched(tree[es[k].id], #[trigger] es[k], probe_at(f.probes@, k))
            && tracked_there(nodes, es[k])
    &&& forall|l: int| 0 <= l < f.leaves@.len() ==> names_leaf(es, ws, (#[trigger] f.leaves@[l]).name@)
    &&& forall|i: int, j: int|
        0 <= i < es.len() && 0 <= j < es.len() && (#[trigger] es[i]).spot.fold == (
        #[trigger] es[j]).spot.fold ==> es[i].id == es[j].id
    &&& forall|d: int|
        0 <= d < f.disk@.len() ==> controls.contains((#[trigger] f.disk@[d]).path@) || exists|
            k: int,
        |
            0 <= k < es.len() && (#[trigger] es[k]).spot.fold == f.disk@[d].fold@
}

proof fn lemma_matched(nodes: Map<u128, NodeVal>, n: ServerVal, e: ExpectedVal, probe: ProbeVal)
    requires
        faults(nodes, n, e, probe).len() == 0,
        nodes.dom().finite(),
    ensures
        matched(n, e, probe),
        tracked_there(nodes, e),
{
    lemma_tracked_at(nodes, roll(nodes.dom()), e.spot.path);
    lemma_roll_exists(nodes.dom());
}

pub proof fn lemma_tracked_at(nodes: Map<u128, NodeVal>, ids: Seq<u128>, path: Seq<char>)
    ensures
        tracked_at(nodes, ids, path) matches Some(id) ==> ids.contains(id) && nodes[id].local.path
            == path,
    decreases ids.len(),
{
    if ids.len() > 0 {
        lemma_tracked_at(nodes, ids.drop_last(), path);
        if let Some(id) = tracked_at(nodes, ids.drop_last(), path) {
            let i = choose|i: int| 0 <= i < ids.len() - 1 && ids.drop_last()[i] == id;
            assert(ids[i] == id);
        }
        assert(ids[ids.len() - 1] == ids.last());
    }
}

proof fn lemma_no_strays(es: Seq<ExpectedVal>, ws: u128, leaves: Seq<Leaf>, k: int)
    requires
        stray_upto(es, ws, leaves, k).len() == 0,
    ensures
        forall|l: int| 0 <= l < k ==> names_leaf(es, ws, (#[trigger] leaves[l]).name@),
    decreases k,
{
    if k > 0 {
        lemma_no_strays(es, ws, leaves, k - 1);
        assert(stray_rows(es, ws, leaves[k - 1]).len() == 0);
    }
}

proof fn lemma_all_matched(
    nodes: Map<u128, NodeVal>,
    es: Seq<ExpectedVal>,
    tree: Map<u128, ServerVal>,
    probes: Seq<Probe>,
)
    requires
        faults_upto(nodes, tree, es, probes, es.len() as int).len() == 0,
        nodes.dom().finite(),
    ensures
        forall|k: int|
            0 <= k < es.len() ==> matched(tree[es[k].id], #[trigger] es[k], probe_at(probes, k))
                && tracked_there(nodes, es[k]),
{
    lemma_no_faults(nodes, tree, es, probes, es.len() as int);
    assert forall|k: int| 0 <= k < es.len() implies matched(
        tree[es[k].id],
        #[trigger] es[k],
        probe_at(probes, k),
    ) && tracked_there(nodes, es[k]) by {
        lemma_matched(nodes, tree[es[k].id], es[k], probe_at(probes, k));
    }
}

proof fn lemma_explained(
    nodes: Map<u128, NodeVal>,
    es: Seq<ExpectedVal>,
    ws: u128,
    tree: Map<u128, ServerVal>,
    controls: Seq<Seq<char>>,
    f: Findings,
)
    requires
        es.len() <= usize::MAX,
        nodes.dom().finite(),
        stray_upto(es, ws, f.leaves@, f.leaves@.len() as int).len() == 0,
        faults_upto(nodes, tree, es, f.probes@, es.len() as int).len() == 0,
        holders(nodes, es, es.len() as int).rows.len() == 0,
        disk_upto(
            f.disk@,
            holders(nodes, es, es.len() as int).by_fold.dom(),
            controls,
            f.disk@.len() as int,
        ).len() == 0,
    ensures
        explained(nodes, es, ws, tree, controls, f),
{
    let n = es.len() as int;
    lemma_no_strays(es, ws, f.leaves@, f.leaves@.len() as int);
    let held = holders(nodes, es, n);
    lemma_all_matched(nodes, es, tree, f.probes@);
    lemma_no_strangers(f.disk@, held.by_fold.dom(), controls, f.disk@.len() as int);
    assert forall|i: int, j: int|
        0 <= i < es.len() && 0 <= j < es.len() && (#[trigger] es[i]).spot.fold == (
        #[trigger] es[j]).spot.fold implies es[i].id == es[j].id by {
        lemma_no_collisions(nodes, es, n, i);
        lemma_no_collisions(nodes, es, n, j);
    }
    assert forall|x: int| 0 <= x < f.disk@.len() implies controls.contains(
        (#[trigger] f.disk@[x]).path@,
    ) || exists|k: int| 0 <= k < es.len() && (#[trigger] es[k]).spot.fold == f.disk@[x].fold@ by {
        if !controls.contains(f.disk@[x].path@) {
            let fold = f.disk@[x].fold@;
            assert(held.by_fold.dom().contains(fold));
            lemma_holders(nodes, es, n);
            assert(es[held.by_fold[fold] as int].spot.fold == fold);
        }
    }
}

/// An account without a finding leaves nothing unexplained: the state is there and complete,
/// nothing is parked, disk, state and server match, no relocated marker is a stray, and every
/// tracked node is on the server.
pub proof fn a_clean_account_explains_everything(
    dir: Seq<char>,
    state: &WsState,
    state_found: bool,
    progress: Progress,
    ws: u128,
    scope: Option<Seq<char>>,
    rules: FsRules,
    tree: Map<u128, ServerVal>,
    controls: Seq<Seq<char>>,
    f: Findings,
)
    requires
        account(dir, state, state_found, progress, ws, scope, rules, tree, controls, f).len() == 0,
        expected_of(state, ws, scope, rules, tree).len() <= usize::MAX,
        state.nodes_v().dom().finite(),
        state.parks_v().dom().finite(),
    ensures
        state_found && !progress.from_zero && progress.at_head,
        state.parks_v().dom() == Set::<u128>::empty(),
        explained(
            state.nodes_v(),
            expected_of(state, ws, scope, rules, tree),
            ws,
            tree,
            controls,
            f,
        ),
        state.nodes_v().dom().subset_of(tree.dom()),
{
    let es = expected_of(state, ws, scope, rules, tree);
    let nodes = state.nodes_v();
    let n = es.len() as int;
    let held = holders(nodes, es, n);
    let a = opening_rows(dir, state_found, progress);
    let b = park_rows(state.parks_v());
    let c = faults_upto(nodes, tree, es, f.probes@, n);
    let d = disk_upto(f.disk@, held.by_fold.dom(), controls, f.disk@.len() as int);
    let e = stray_upto(es, ws, f.leaves@, f.leaves@.len() as int);
    let o = orphan_rows(nodes, tree.dom());
    assert((a + b + c + held.rows + d + e + o).len() == a.len() + b.len() + c.len()
        + held.rows.len() + d.len() + e.len() + o.len());
    lemma_explained(nodes, es, ws, tree, controls, f);
    lemma_no_orphans(nodes, tree.dom(), roll(nodes.dom()), roll(nodes.dom()).len() as int);
    lemma_roll_exists(nodes.dom());
    lemma_roll_exists(state.parks_v().dom());
    let parked = state.parks_v().dom();
    assert forall|id: u128| !parked.contains(id) by {
        assert(!roll(parked).contains(id));
    }
    assert(parked =~= Set::<u128>::empty());
    assert forall|id: u128| nodes.dom().contains(id) implies tree.dom().contains(id) by {
        assert(roll(nodes.dom()).contains(id));
        let k = choose|k: int| 0 <= k < roll(nodes.dom()).len() && roll(nodes.dom())[k] == id;
        assert(tree.dom().contains(roll(nodes.dom())[k]));
    }
}

/// A mount that was never synced is reported so, and neither created nor scanned.
pub fn never_synced(dir: &str) -> (r: Discrepancy)
    ensures
        r.view() == (RowVal {
            class: "missing-local"@,
            path: dir@,
            detail: "this mount has never been synced (neither the mirror nor its ownership marker exists) — run `docli sync`"@,
        }),
{
    Discrepancy {
        class: "missing-local",
        path: dir.to_owned(),
        detail: "this mount has never been synced (neither the mirror nor its ownership marker exists) — run `docli sync`".to_owned(),
    }
}

/// Why the server refused a mount.
#[derive(Debug)]
pub enum Refusal {
    /// The workspace is not accessible, in these words.
    NoAccess(String),
    /// Sync is not switched on for the account.
    NotEntitled,
}

pub open spec fn refusal_text(r: Refusal) -> Seq<char> {
    match r {
        Refusal::NoAccess(m) => m@,
        Refusal::NotEntitled => "синхронизация не включена для вашего аккаунта"@,
    }
}

/// The row of a mount that the server refused. The other mounts are still examined.
pub fn refused(dir: &str, why: &Refusal) -> (r: Discrepancy)
    ensures
        r.view() == (RowVal { class: "no-access"@, path: dir@, detail: refusal_text(*why) }),
{
    Discrepancy {
        class: "no-access",
        path: dir.to_owned(),
        detail: match why {
            Refusal::NoAccess(m) => m.clone(),
            Refusal::NotEntitled => "синхронизация не включена для вашего аккаунта".to_owned(),
        },
    }
}

/// What becomes of a scan that the server did not answer.
#[derive(Debug)]
pub enum ScanFault {
    /// The mount is reported as refused.
    Refused(Refusal),
    /// The command fails, in these words.
    Failed(String),
}

/// What a [`ScanFault`] says.
pub enum FaultVal {
    NoAccess(Seq<char>),
    NotEntitled,
    Failed(Seq<char>),
}

impl ScanFault {
    pub open spec fn view(&self) -> FaultVal {
        match self {
            ScanFault::Refused(Refusal::NoAccess(m)) => FaultVal::NoAccess(m@),
            ScanFault::Refused(Refusal::NotEntitled) => FaultVal::NotEntitled,
            ScanFault::Failed(m) => FaultVal::Failed(m@),
        }
    }
}

/// What a refused page of a scan comes to. `first` is the page that opens the scan.
pub open spec fn fault_of_scan(f: ApiFailure, first: bool, name: Seq<char>) -> FaultVal {
    match f {
        ApiFailure::Refused { status, .. } => if status == 403 {
            FaultVal::NoAccess("no access to `"@ + name + "`"@)
        } else if status == 402 {
            FaultVal::NotEntitled
        } else {
            FaultVal::Failed(failure_message(f))
        },
        ApiFailure::EpochChanged { .. } => if first {
            FaultVal::Failed(failure_message(f))
        } else {
            FaultVal::Failed(
                "the workspace was resynced mid-scan — run `docli doctor` again"@,
            )
        },
    }
}

/// Decide what a refused page of a scan comes to: a mount that is closed to the account is
/// reported, and everything else fails the command.
pub fn scan_fault(f: &ApiFailure, first: bool, name: &str) -> (r: ScanFault)
    ensures
        r.view() == fault_of_scan(*f, first, name@),
{
    match f {
        ApiFailure::Refused { status, .. } => {
            if *status == 403 {
                return ScanFault::Refused(Refusal::NoAccess(cat3("no access to `", name, "`")));
            }
            if *status == 402 {
                return ScanFault::Refused(Refusal::NotEntitled);
            }
        },
        ApiFailure::EpochChanged { .. } => {
            if !first {
                return ScanFault::Failed(
                    "the workspace was resynced mid-scan — run `docli doctor` again".to_owned(),
                );
            }
        },
    }
    ScanFault::Failed(f.message())
}

/// What a scan that could not be closed is to say. `rollback` is what is said of a server that
/// does not count its live nodes.
pub open spec fn step_text(s: TreeStep, rollback: Seq<char>) -> Option<Seq<char>> {
    match s {
        TreeStep::Rollback => Some(rollback),
        TreeStep::Changed { live, collected } => Some(
            "the workspace changed mid-scan (server live count "@ + signed_of(live as int)
                + " vs "@ + decimal_of(collected as nat)
                + " collected) — the reconciliation is inconclusive; run `docli doctor` again"@,
        ),
        _ => None,
    }
}

impl TreeStep {
    /// What a scan that could not be closed is to say.
    pub fn message(&self, rollback: &str) -> (r: Option<String>)
        ensures
            opt_str(r) == step_text(*self, rollback@),
    {
        match *self {
            TreeStep::Rollback => Some(rollback.to_owned()),
            TreeStep::Changed { live, collected } => {
                let a = signed(live);
                let b = decimal(collected as u64);
                Some(
                    cat5(
                        "the workspace changed mid-scan (server live count ",
                        a.as_str(),
                        " vs ",
                        b.as_str(),
                        " collected) — the reconciliation is inconclusive; run `docli doctor` again",
                    ),
                )
            },
            _ => None,
        }
    }
}

/// The account of one mount, under its name.
#[derive(Debug)]
pub struct MountReport {
    pub name: String,
    pub rows: Vec<Discrepancy>,
}

/// How many findings there are in the first `k` reports.
pub open spec fn found(all: Seq<MountReport>, k: int) -> nat
    decreases k,
{
    if k <= 0 {
        0
    } else {
        found(all, k - 1) + all[k - 1].rows@.len()
    }
}

/// The lines of the first `k` rows of a mount.
pub open spec fn row_lines(v: Seq<RowVal>, k: int) -> Seq<Seq<char>>
    decreases k,
{
    if k <= 0 {
        Seq::empty()
    } else {
        row_lines(v, k - 1).push(
            "  "@ + padded(v[k - 1].class, 18) + " "@ + padded(v[k - 1].path, 40) + " "@
                + v[k - 1].detail,
        )
    }
}

/// The lines of one mount.
pub open spec fn report_lines(m: MountReport) -> Seq<Seq<char>> {
    if m.rows@.len() == 0 {
        seq![m.name@ + ": clean"@]
    } else {
        seq![m.name@ + ": discrepancies: "@ + decimal_of(m.rows@.len())] + row_lines(
            rows(m.rows@),
            m.rows@.len() as int,
        )
    }
}

/// The lines of the first `k` mounts.
pub open spec fn all_lines(all: Seq<MountReport>, k: int) -> Seq<Seq<char>>
    decreases k,
{
    if k <= 0 {
        Seq::empty()
    } else {
        all_lines(all, k - 1) + report_lines(all[k - 1])
    }
}

/// Everything there is to print.
pub open spec fn printout(all: Seq<MountReport>) -> Seq<Seq<char>> {
    let lines = all_lines(all, all.len() as int);
    if found(all, all.len() as int) > 0 {
        lines.push(
            "\nrepair: `docli sync --full` rebuilds the mirror from the server; the manual equivalent is to delete the cache and then run `docli sync`"@,
        )
    } else {
        lines
    }
}

fn print_rows(out: &mut Vec<String>, v: &Vec<Discrepancy>)
    ensures
        strs(final(out)@) == strs(old(out)@) + row_lines(rows(v@), v@.len() as int),
{
    broadcast use crate::text::lemma_strs_push;

    let ghost start = strs(out@);
    assert(start =~= start + row_lines(rows(v@), 0));
    for i in 0..v.len()
        invariant
            strs(out@) == start + row_lines(rows(v@), i as int),
    {
        broadcast use crate::text::lemma_strs_push;

        let d: &Discrepancy = &v[i];
        assert(rows(v@)[i as int] == d.view());
        let class = pad_end(d.class, 18);
        let path = pad_end(d.path.as_str(), 40);
        let tail = cat2(" ", d.detail.as_str());
        let line = cat5("  ", class.as_str(), " ", path.as_str(), tail.as_str());
        assert(line@ =~= "  "@ + padded(d.class@, 18) + " "@ + padded(d.path@, 40) + " "@
            + d.detail@);
        out.push(line);
        assert(strs(out@) =~= start + row_lines(rows(v@), i + 1));
    }
}

/// The lines to print for the accounts of all mounts.
pub fn render(all: &Vec<MountReport>) -> (r: Vec<String>)
    ensures
        strs(r@) == printout(all@),
{
    broadcast use crate::text::lemma_strs_push;

    let mut out: Vec<String> = Vec::new();
    let mut any: bool = false;
    assert(strs(out@) =~= all_lines(all@, 0));
    for i in 0..all.len()
        invariant
            strs(out@) == all_lines(all@, i as int),
            any == (found(all@, i as int) > 0),
    {
        broadcast use crate::text::lemma_strs_push;

        let m: &MountReport = &all[i];
        let ghost before = strs(out@);
        let n: usize = m.rows.len();
        if n == 0 {
            out.push(cat2(m.name.as_str(), ": clean"));
        } else {
            let count = decimal(n as u64);
            out.push(cat3(m.name.as_str(), ": discrepancies: ", count.as_str()));
            print_rows(&mut out, &m.rows);
            any = true;
        }
        assert(strs(out@) =~= before + report_lines(*m));
    }
    if any {
        out.push(
            "\nrepair: `docli sync --full` rebuilds the mirror from the server; the manual equivalent is to delete the cache and then run `docli sync`".to_owned(),
        );
    }
    out
}

/// One finding as JSON.
pub open spec fn row_json(r: RowVal) -> JsonVal {
    JsonVal::Object(
        seq![
            ("class"@, JsonVal::Text(r.class)),
            ("detail"@, JsonVal::Text(r.detail)),
            ("path"@, JsonVal::Text(r.path)),
        ],
    )
}

/// The accounts of all mounts as JSON.
pub open spec fn reports_json(all: Seq<MountReport>) -> JsonVal {
    JsonVal::Array(
        Seq::new(
            all.len(),
            |i: int|
                JsonVal::Object(
                    seq![
                        (
                            "discrepancies"@,
                            JsonVal::Array(
                                Seq::new(
                                    all[i].rows@.len(),
                                    |j: int| row_json(all[i].rows@[j].view()),
                                ),
                            ),
                        ),
                        ("mount"@, JsonVal::Text(all[i].name@)),
                    ],
                ),
        ),
    )
}

fn rows_value(v: &Vec<Discrepancy>) -> (r: Json)
    ensures
        r.view() == JsonVal::Array(Seq::new(v@.len(), |j: int| row_json(v@[j].view()))),
{
    broadcast use lemma_members_view, lemma_elements_view;

    let mut items: Vec<Json> = Vec::new();
    for i in 0..v.len()
        invariant
            items@.len() == i,
            forall|j: int| 0 <= j < i ==> (#[trigger] items@[j]).view() == row_json(v@[j].view()),
    {
        broadcast use lemma_members_view;

        let d: &Discrepancy = &v[i];
        let mut members: Vec<(String, Json)> = Vec::new();
        members.push(("class".to_owned(), Json::Text(d.class.to_owned())));
        members.push(("detail".to_owned(), Json::Text(d.detail.clone())));
        members.push(("path".to_owned(), Json::Text(d.path.clone())));
        let o = Json::Object(members);
        assert(members_of(members@) =~= seq![
            ("class"@, JsonVal::Text(d.class@)),
            ("detail"@, JsonVal::Text(d.detail@)),
            ("path"@, JsonVal::Text(d.path@)),
        ]);
        items.push(o);
    }
    assert(elements_of(items@) =~= Seq::new(v@.len(), |j: int| row_json(v@[j].view())));
    Json::Array(items)
}

/// The accounts of all mounts as a JSON value.
pub fn reports_value(all: &Vec<MountReport>) -> (r: Json)
    ensures
        r.view() == reports_json(all@),
{
    broadcast use lemma_members_view, lemma_elements_view;

    let mut items: Vec<Json> = Vec::new();
    let ghost want = reports_json(all@)->Array_0;
    for i in 0..all.len()
        invariant
            items@.len() == i,
            want == reports_json(all@)->Array_0,
            forall|j: int| 0 <= j < i ==> (#[trigger] items@[j]).view() == want[j],
    {
        broadcast use lemma_members_view;

        let m: &MountReport = &all[i];
        let mut members: Vec<(String, Json)> = Vec::new();
        members.push(("discrepancies".to_owned(), rows_value(&m.rows)));
        members.push(("mount".to_owned(), Json::Text(m.name.clone())));
        let o = Json::Object(members);
        assert(members_of(members@) =~= want[i as int]->Object_0);
        items.push(o);
    }
    assert(elements_of(items@) =~= want);
    Json::Array(items)
}

/// The accounts of all mounts, printed as JSON.
pub fn render_json(all: &Vec<MountReport>) -> (r: String)
    ensures
        r@ == pretty_json(reports_json(all@)),
{
    let v = reports_value(all);
    print_json_pretty(&v)
}

/// The exit code: zero where there is no finding.
pub fn exit_code(all: &Vec<MountReport>) -> (r: i32)
    ensures
        r == (if found(all@, all@.len() as int) == 0 {
            0int
        } else {
            1
        }),
{
    for i in 0..all.len()
        invariant
            found(all@, i as int) == 0,
    {
        if all[i].rows.len() > 0 {
            proof {
                lemma_found_grows(all@, i + 1, all@.len() as int);
            }
            return 1;
        }
    }
    0
}

proof fn lemma_found_grows(all: Seq<MountReport>, i: int, k: int)
    requires
        0 <= i <= k,
    ensures
        found(all, i) <= found(all, k),
    decreases k - i,
{
    if i < k {
        lemma_found_grows(all, i, k - 1);
    }
}

} // verus!
