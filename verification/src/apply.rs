//! The apply engine: converge a mirror to what the server delivered, node by node, keyed by id.
//!
//! A page goes through four phases: plan, write, delete, retry. The plan needs no disk; each
//! later step says what is to be done on disk and takes in what came of it. A delivery that
//! changes path writes at the destination first and deletes the old path afterwards, folders go
//! deepest first and never with content in them, and whatever is not ours is left in place.

use vstd::prelude::*;

use vstd::hash_map::StringHashMap;

use crate::guard::MIRROR_RULE;
use crate::ids::id_text;
use crate::ids::parse_id;
use crate::ids::parsed_id;
use crate::ids::print_id;
use crate::localpath::docli_segment;
use crate::localpath::has_reserved_segment;
use crate::localpath::in_docli_namespace;
use crate::localpath::in_scope;
use crate::localpath::oversized;
use crate::localpath::project;
use crate::localpath::reserved_segment;
use crate::localpath::scope_relative;
use crate::localpath::spelled;
use crate::localpath::too_long_text;
use crate::localpath::FsRules;
use crate::state::opt_node;
use crate::state::opt_spot;
use crate::state::lemma_roll_exists;
use crate::state::roll;
use crate::state::NodeState;
use crate::state::NodeVal;
use crate::state::Park;
use crate::state::ParkClass;
use crate::state::Spot;
use crate::state::SpotVal;
use crate::state::TrackedKind;
use crate::state::WsState;
use crate::text::after_prefix;
use crate::text::before_suffix;
use crate::text::cat2;
use crate::text::cat3;
use crate::text::cat5;
use crate::text::chars_of;
use crate::text::eq_ignore_ascii_case;
use crate::text::has_sub;
use crate::text::occurs_at;
use crate::text::opt_ref;
use crate::text::opt_str;
use crate::text::same;
use crate::text::same_ascii;
use crate::text::strip_prefix;
use crate::text::strip_suffix;
use crate::text::strs;

verus! {

broadcast use vstd::std_specs::btree::group_btree_axioms;

/// Which node's materialization stands at a fold key.
pub type Claims = Map<Seq<char>, u128>;

/// A path that a node materializes: a note's or folder's own path, an attachment's marker. The
/// path of an attachment itself holds no file.
pub open spec fn claims(n: NodeVal, fold: Seq<char>) -> bool {
    ||| n.kind != TrackedKind::Attachment && n.local.fold == fold
    ||| n.marker is Some && n.marker->0.fold == fold
}

/// `idx` without the entry at `fold` where that entry is the node's own.
pub open spec fn release(idx: Claims, fold: Seq<char>, id: u128) -> Claims {
    if idx.dom().contains(fold) && idx[fold] == id {
        idx.remove(fold)
    } else {
        idx
    }
}

/// `idx` without what the node still owns of its former paths.
pub open spec fn released(idx: Claims, prev: NodeVal, id: u128) -> Claims {
    let a = release(idx, prev.local.fold, id);
    match prev.marker {
        Some(m) => release(a, m.fold, id),
        None => a,
    }
}

/// `idx` with the node's paths.
pub open spec fn claimed(idx: Claims, n: NodeVal, id: u128) -> Claims {
    let a = if n.kind != TrackedKind::Attachment {
        idx.insert(n.local.fold, id)
    } else {
        idx
    };
    match n.marker {
        Some(m) => a.insert(m.fold, id),
        None => a,
    }
}

pub open spec fn released_opt(idx: Claims, prev: Option<NodeVal>, id: u128) -> Claims {
    match prev {
        Some(p) => released(idx, p, id),
        None => idx,
    }
}

/// Every entry of the index is a path that the node it names materializes.
pub open spec fn coherent(idx: Claims, nodes: Map<u128, NodeVal>) -> bool {
    forall|k: Seq<char>| #[trigger]
        idx.dom().contains(k) ==> nodes.dom().contains(idx[k]) && claims(nodes[idx[k]], k)
}

/// The node of an id, where it is tracked.
pub open spec fn node_at(nodes: Map<u128, NodeVal>, id: u128) -> Option<NodeVal> {
    if nodes.dom().contains(id) {
        Some(nodes[id])
    } else {
        None
    }
}

/// The index of the paths that tracked nodes materialize.
pub struct ClaimIndex {
    pub by_fold: StringHashMap<u128>,
}

impl ClaimIndex {
    pub open spec fn view(&self) -> Claims {
        self.by_fold@
    }

    fn release(&mut self, fold: &str, id: u128)
        ensures
            final(self).view() == release(old(self).view(), fold@, id),
    {
        let own: bool = match self.by_fold.get(fold) {
            Some(o) => *o == id,
            None => false,
        };
        if own {
            self.by_fold.remove(fold);
        }
    }

    fn release_node(&mut self, prev: &NodeState, id: u128)
        ensures
            final(self).view() == released(old(self).view(), prev.view(), id),
    {
        self.release(prev.local.fold.as_str(), id);
        if let Some(m) = &prev.marker {
            self.release(m.fold.as_str(), id);
        }
    }

    fn claim_node(&mut self, n: &NodeState, id: u128)
        ensures
            final(self).view() == claimed(old(self).view(), n.view(), id),
    {
        if n.kind != TrackedKind::Attachment {
            self.by_fold.insert(n.local.fold.clone(), id);
        }
        if let Some(m) = &n.marker {
            self.by_fold.insert(m.fold.clone(), id);
        }
    }

    /// Who claims a fold key.
    pub fn owner(&self, fold: &str) -> (r: Option<u128>)
        ensures
            r == (if self.view().dom().contains(fold@) {
                Some(self.view()[fold@])
            } else {
                None
            }),
    {
        match self.by_fold.get(fold) {
            Some(o) => Some(*o),
            None => None,
        }
    }
}

/// The claims of the nodes that the ledger still holds live: each entry is such a node's, and
/// each path of such a node has an entry.
pub open spec fn is_index_of(idx: Claims, nodes: Map<u128, NodeVal>, ledger: Set<u128>) -> bool {
    &&& coherent(idx, nodes)
    &&& forall|k: Seq<char>| #[trigger] idx.dom().contains(k) ==> ledger.contains(idx[k])
    &&& forall|id: u128, k: Seq<char>|
        nodes.dom().contains(id) && ledger.contains(id) && #[trigger] claims(nodes[id], k)
            ==> idx.dom().contains(k)
}

/// The claims of the live nodes among `ids`, each in its turn.
pub open spec fn claims_among(nodes: Map<u128, NodeVal>, ledger: Set<u128>, ids: Seq<u128>) -> Claims
    decreases ids.len(),
{
    if ids.len() == 0 {
        Map::empty()
    } else {
        let before = claims_among(nodes, ledger, ids.drop_last());
        let id = ids.last();
        if ledger.contains(id) {
            claimed(before, nodes[id], id)
        } else {
            before
        }
    }
}

/// The claims of the tracked nodes that the ledger holds live, taken in the order of their ids.
pub open spec fn index_of(nodes: Map<u128, NodeVal>, ledger: Set<u128>) -> Claims {
    claims_among(nodes, ledger, roll(nodes.dom()))
}

proof fn lemma_claims_among(nodes: Map<u128, NodeVal>, ledger: Set<u128>, ids: Seq<u128>)
    requires
        forall|id: u128| #[trigger] ids.contains(id) ==> nodes.dom().contains(id),
    ensures
        ({
            let idx = claims_among(nodes, ledger, ids);
            &&& coherent(idx, nodes)
            &&& forall|k: Seq<char>| #[trigger] idx.dom().contains(k) ==> ledger.contains(idx[k])
            &&& forall|id: u128, k: Seq<char>|
                ids.contains(id) && ledger.contains(id) && #[trigger] claims(nodes[id], k)
                    ==> idx.dom().contains(k)
        }),
    decreases ids.len(),
{
    if ids.len() > 0 {
        let rest = ids.drop_last();
        let last = ids.last();
        assert(ids[ids.len() - 1] == last);
        assert(ids.contains(last));
        assert forall|id: u128| #[trigger] rest.contains(id) implies nodes.dom().contains(id) by {
            let w = choose|w: int| 0 <= w < rest.len() && rest[w] == id;
            assert(ids[w] == id);
            assert(ids.contains(id));
        }
        lemma_claims_among(nodes, ledger, rest);
        let before = claims_among(nodes, ledger, rest);
        let idx = claims_among(nodes, ledger, ids);
        assert forall|k: Seq<char>| #[trigger] idx.dom().contains(k) implies nodes.dom().contains(
            idx[k],
        ) && claims(nodes[idx[k]], k) && ledger.contains(idx[k]) by {
            if before.dom().contains(k) {
            }
        }
        assert forall|id: u128, k: Seq<char>|
            ids.contains(id) && ledger.contains(id) && #[trigger] claims(
                nodes[id],
                k,
            ) implies idx.dom().contains(k) by {
            if id != last {
                let w = choose|w: int| 0 <= w < ids.len() && ids[w] == id;
                assert(rest[w] == id);
                assert(rest.contains(id));
                assert(before.dom().contains(k));
            }
        }
    }
}

/// The index holds an entry for each path that a live node materializes, and no others; each
/// names a live node that materializes the path.
pub proof fn the_index_holds_what_live_nodes_materialize(
    nodes: Map<u128, NodeVal>,
    ledger: Set<u128>,
)
    requires
        nodes.dom().finite(),
    ensures
        is_index_of(index_of(nodes, ledger), nodes, ledger),
{
    lemma_roll_exists(nodes.dom());
    lemma_claims_among(nodes, ledger, roll(nodes.dom()));
}

/// Index the claims of the tracked nodes that the ledger holds live. A node that a fresh replay
/// has not delivered claims nothing, so that it cannot hold back what replaces it.
pub fn build_claim_index(state: &WsState) -> (r: ClaimIndex)
    ensures
        r.view() == index_of(state.nodes_v(), state.ledger@),
        is_index_of(r.view(), state.nodes_v(), state.ledger@),
{
    let mut idx = ClaimIndex { by_fold: StringHashMap::new() };
    let ids = state.node_ids();
    let ghost nodes = state.nodes_v();
    assert(idx.view() =~= claims_among(nodes, state.ledger@, ids@.take(0)));
    for i in 0..ids.len()
        invariant
            nodes == state.nodes_v(),
            forall|id: u128| #[trigger] ids@.contains(id) <==> nodes.dom().contains(id),
            idx.view() == claims_among(nodes, state.ledger@, ids@.take(i as int)),
    {
        let id: u128 = ids[i];
        assert(ids@.contains(id));
        assert(ids@.take(i + 1).drop_last() =~= ids@.take(i as int));
        if state.ledger.contains(&id) {
            if let Some(n) = state.node(id) {
                idx.claim_node(n, id);
            }
        }
    }
    assert(ids@.take(ids@.len() as int) =~= ids@);
    proof {
        lemma_claims_among(nodes, state.ledger@, ids@);
    }
    idx
}

/// Track a node: whatever it owned before is released, and its paths are its own now.
pub fn track_node(state: &mut WsState, idx: &mut ClaimIndex, id: u128, n: NodeState)
    ensures
        final(state).nodes_v() == old(state).nodes_v().insert(id, n.view()),
        final(state).ledger@ == old(state).ledger@,
        final(state).parks_v() == old(state).parks_v(),
        final(idx).view() == claimed(
            released_opt(old(idx).view(), node_at(old(state).nodes_v(), id), id),
            n.view(),
            id,
        ),
{
    if let Some(prev) = state.node(id) {
        idx.release_node(prev, id);
    }
    idx.claim_node(&n, id);
    state.put_node(id, n);
}

/// Stop tracking a node. Only the entries that it still owns go: a successor may have claimed
/// its paths already.
pub fn untrack_node(state: &mut WsState, idx: &mut ClaimIndex, id: u128) -> (r: Option<NodeState>)
    ensures
        final(state).nodes_v() == old(state).nodes_v().remove(id),
        final(state).ledger@ == old(state).ledger@,
        final(state).parks_v() == old(state).parks_v(),
        opt_node(r) == node_at(old(state).nodes_v(), id),
        final(idx).view() == released_opt(
            old(idx).view(),
            node_at(old(state).nodes_v(), id),
            id,
        ),
{
    match state.take_node(id) {
        Some(prev) => {
            idx.release_node(&prev, id);
            Some(prev)
        },
        None => None,
    }
}

/// Tracking keeps the index true to the nodes.
pub proof fn tracking_keeps_claims_coherent(
    idx: Claims,
    nodes: Map<u128, NodeVal>,
    id: u128,
    n: NodeVal,
)
    requires
        coherent(idx, nodes),
    ensures
        coherent(
            claimed(released_opt(idx, node_at(nodes, id), id), n, id),
            nodes.insert(id, n),
        ),
{
    let a = released_opt(idx, node_at(nodes, id), id);
    let b = claimed(a, n, id);
    let after = nodes.insert(id, n);
    assert forall|k: Seq<char>| #[trigger] b.dom().contains(k) implies after.dom().contains(b[k])
        && claims(after[b[k]], k) by {
        if claims(n, k) {
            assert(b[k] == id);
        } else {
            assert(a.dom().contains(k) && a[k] == b[k]);
            assert(idx.dom().contains(k) && idx[k] == b[k]);
            assert(b[k] != id);
        }
    }
}

/// So does untracking.
pub proof fn untracking_keeps_claims_coherent(idx: Claims, nodes: Map<u128, NodeVal>, id: u128)
    requires
        coherent(idx, nodes),
    ensures
        coherent(released_opt(idx, node_at(nodes, id), id), nodes.remove(id)),
{
    let a = released_opt(idx, node_at(nodes, id), id);
    let after = nodes.remove(id);
    assert forall|k: Seq<char>| #[trigger] a.dom().contains(k) implies after.dom().contains(a[k])
        && claims(after[a[k]], k) by {
        assert(idx.dom().contains(k) && idx[k] == a[k]);
        assert(a[k] != id);
    }
}

/// One delivered node, together with what its name and path come to on this filesystem.
#[derive(Debug)]
pub struct Delivered {
    pub id: u128,
    pub kind: String,
    pub name: String,
    pub path: String,
    pub rev: i64,
    pub trashed: bool,
    pub body: Option<String>,
    /// A note may have this name.
    pub note_named: bool,
    /// The spelling of its path in scope under the Windows rules on names.
    pub encoded: String,
    /// The fold key of its local spelling.
    pub fold: String,
    /// Where the marker of an attachment may go, in the order of preference.
    pub marker_spots: Vec<Spot>,
    /// What the marker of an attachment says.
    pub marker_text: String,
}

/// What a [`Delivered`] node says.
pub struct DeliveredVal {
    pub id: u128,
    pub kind: Seq<char>,
    pub name: Seq<char>,
    pub path: Seq<char>,
    pub rev: i64,
    pub trashed: bool,
    pub body: Option<Seq<char>>,
    pub note_named: bool,
    pub encoded: Seq<char>,
    pub fold: Seq<char>,
    pub marker_spots: Seq<SpotVal>,
    pub marker_text: Seq<char>,
}

pub open spec fn spots(v: Seq<Spot>) -> Seq<SpotVal> {
    Seq::new(v.len(), |i: int| v[i].view())
}

impl Delivered {
    pub open spec fn view(&self) -> DeliveredVal {
        DeliveredVal {
            id: self.id,
            kind: self.kind@,
            name: self.name@,
            path: self.path@,
            rev: self.rev,
            trashed: self.trashed,
            body: opt_str(self.body),
            note_named: self.note_named,
            encoded: self.encoded@,
            fold: self.fold@,
            marker_spots: spots(self.marker_spots@),
            marker_text: self.marker_text@,
        }
    }
}

pub open spec fn page_of(v: Seq<Delivered>) -> Seq<DeliveredVal> {
    Seq::new(v.len(), |i: int| v[i].view())
}

/// The kinds of nodes that are mirrored.
pub open spec fn kind_named(kind: Seq<char>) -> Option<TrackedKind> {
    if kind == "file"@ {
        Some(TrackedKind::Note)
    } else if kind == "folder"@ {
        Some(TrackedKind::Folder)
    } else if kind == "attachment"@ {
        Some(TrackedKind::Attachment)
    } else {
        None
    }
}

pub fn kind_of(kind: &str) -> (r: Option<TrackedKind>)
    ensures
        r == kind_named(kind@),
{
    if same(kind, "file") {
        Some(TrackedKind::Note)
    } else if same(kind, "folder") {
        Some(TrackedKind::Folder)
    } else if same(kind, "attachment") {
        Some(TrackedKind::Attachment)
    } else {
        None
    }
}

/// Where the marker of an attachment goes that cannot stand beside it: a directory of its own
/// for each workspace, outside every mount.
pub open spec fn relocated(ws: u128, id: u128) -> Seq<char> {
    ".docli/markers/"@ + id_text(ws) + "/"@ + id_text(id) + ".docli"@
}

proof fn lemma_relocated_has_its_leaf(ws: u128, id: u128)
    requires
        parsed_id(id_text(id)) == Some(id),
    ensures
        leaf_of(relocated(ws, id), ws) == Some(id_text(id) + ".docli"@),
{
    let leaf = id_text(id) + ".docli"@;
    let c = "/"@ + leaf;
    let b = id_text(ws) + c;
    let path = ".docli/markers/"@ + b;
    assert(relocated(ws, id) =~= path);
    lemma_front_comes_off(".docli/markers/"@, b);
    lemma_front_comes_off(id_text(ws), c);
    lemma_front_comes_off("/"@, leaf);
    assert(leaf.subrange(leaf.len() - ".docli"@.len(), leaf.len() as int) =~= ".docli"@);
    assert(leaf.subrange(0, leaf.len() - ".docli"@.len()) =~= id_text(id));
}

proof fn lemma_front_comes_off(front: Seq<char>, rest: Seq<char>)
    ensures
        after_prefix(front + rest, front) == Some(rest),
{
    let s = front + rest;
    assert(s.subrange(0, front.len() as int) =~= front);
    assert(s.subrange(front.len() as int, s.len() as int) =~= rest);
}

/// Where the marker of an attachment goes that cannot stand beside it. The leaf of that path is
/// the marker's own.
pub fn relocated_marker(ws: u128, id: u128) -> (r: String)
    ensures
        r@ == relocated(ws, id),
        leaf_of(r@, ws) == Some(id_text(id) + ".docli"@),
{
    let w = print_id(ws);
    let n = print_id(id);
    proof {
        lemma_relocated_has_its_leaf(ws, id);
    }
    cat5(".docli/markers/", w.as_str(), "/", n.as_str(), ".docli")
}

/// The leaf of a relocated marker path: the file name, where the path lies in this workspace's
/// own directory and the name is exactly one that [`relocated`] spells.
pub open spec fn leaf_of(path: Seq<char>, ws: u128) -> Option<Seq<char>> {
    match after_prefix(path, ".docli/markers/"@) {
        None => None,
        Some(a) => match after_prefix(a, id_text(ws)) {
            None => None,
            Some(b) => match after_prefix(b, "/"@) {
                None => None,
                Some(leaf) => match before_suffix(leaf, ".docli"@) {
                    None => None,
                    Some(stem) => match parsed_id(stem) {
                        Some(id) => if id_text(id) == stem {
                            Some(leaf)
                        } else {
                            None
                        },
                        None => None,
                    },
                },
            },
        },
    }
}

/// The leaf of a relocated marker path. A path in a sibling's directory, one that is more than
/// one clean component, or one with another spelling of the id than [`relocated_marker`] gives,
/// has none.
pub fn relocated_leaf(marker_path: &str, ws: u128) -> (r: Option<String>)
    ensures
        opt_str(r) == leaf_of(marker_path@, ws),
{
    let w = print_id(ws);
    match strip_prefix(marker_path, ".docli/markers/") {
        None => None,
        Some(a) => match strip_prefix(a.as_str(), w.as_str()) {
            None => None,
            Some(b) => match strip_prefix(b.as_str(), "/") {
                None => None,
                Some(leaf) => match strip_suffix(leaf.as_str(), ".docli") {
                    None => None,
                    Some(stem) => match parse_id(stem.as_str()) {
                        Some(id) => {
                            let spelled = print_id(id);
                            if same(spelled.as_str(), stem.as_str()) {
                                Some(leaf)
                            } else {
                                None
                            }
                        },
                        None => None,
                    },
                },
            },
        },
    }
}

/// What is said of a hand edit that a sync overwrote.
pub open spec fn overwritten(local: Seq<char>) -> Seq<char> {
    local + " held a hand edit, which the sync overwrote - "@ + MIRROR_RULE@
}

/// What is said of a hand edit that a sync overwrote: the path and the rule on mirrors.
pub fn hand_edit_overwritten(local: &str) -> (r: String)
    ensures
        r@ == overwritten(local@),
        has_sub(r@, MIRROR_RULE@),
{
    let r = cat3(local, " held a hand edit, which the sync overwrote - ", MIRROR_RULE);
    proof {
        let at = r@.len() - MIRROR_RULE@.len();
        assert(r@.subrange(at, r@.len() as int) =~= MIRROR_RULE@);
        assert(occurs_at(r@, MIRROR_RULE@, at));
    }
    r
}

/// What is to become of one delivery.
#[derive(Debug)]
pub enum Disp {
    /// Only the ledger takes note of it.
    LedgerOnly,
    /// What was materialized of it goes.
    Remove,
    /// It is held back, and what was materialized of it goes.
    Park { class: ParkClass, reason: String },
    /// It is materialized.
    Put { kind: TrackedKind, local: Spot, text: String, marker: Option<Spot> },
}

/// What a [`Disp`] says.
pub enum DispVal {
    LedgerOnly,
    Remove,
    Park { class: ParkClass, reason: Seq<char> },
    Put { kind: TrackedKind, local: SpotVal, text: Seq<char>, marker: Option<SpotVal> },
}

impl Disp {
    pub open spec fn view(&self) -> DispVal {
        match self {
            Disp::LedgerOnly => DispVal::LedgerOnly,
            Disp::Remove => DispVal::Remove,
            Disp::Park { class, reason } => DispVal::Park { class: *class, reason: reason@ },
            Disp::Put { kind, local, text, marker } => DispVal::Put {
                kind: *kind,
                local: local.view(),
                text: text@,
                marker: opt_spot(*marker),
            },
        }
    }
}

pub open spec fn plan_of(v: Seq<Disp>) -> Seq<DispVal> {
    Seq::new(v.len(), |i: int| v[i].view())
}

/// A marker cannot go where a control file of the mount or another node's materialization is.
pub open spec fn collides(spot: SpotVal, idx: Claims, controls: Seq<Seq<char>>, id: u128) -> bool {
    ||| exists|c: int| 0 <= c < controls.len() && same_ascii(#[trigger] controls[c], spot.path)
    ||| idx.dom().contains(spot.fold) && idx[spot.fold] != id
}

/// The first spot that is free.
pub open spec fn first_free(
    candidates: Seq<SpotVal>,
    idx: Claims,
    controls: Seq<Seq<char>>,
    id: u128,
) -> Option<SpotVal>
    decreases candidates.len(),
{
    if candidates.len() == 0 {
        None
    } else if !collides(candidates[0], idx, controls, id) {
        Some(candidates[0])
    } else {
        first_free(candidates.drop_first(), idx, controls, id)
    }
}

/// What a delivery comes to before the page is looked at as a whole: guards, scope and
/// projection.
pub open spec fn classified(
    known: bool,
    idx: Claims,
    ws: u128,
    scope: Option<Seq<char>>,
    controls: Seq<Seq<char>>,
    rules: FsRules,
    d: DeliveredVal,
) -> DispVal {
    let gone = if known {
        DispVal::Remove
    } else {
        DispVal::LedgerOnly
    };
    if d.trashed {
        gone
    } else {
        match kind_named(d.kind) {
            None => gone,
            Some(kind) => if reserved_segment(d.path) {
                gone
            } else if docli_segment(d.path) {
                DispVal::Park {
                    class: ParkClass::Lasting,
                    reason: "the .docli namespace is reserved for CLI control files"@,
                }
            } else {
                match in_scope(d.path, scope) {
                    None => gone,
                    Some(rel) => if rel.len() == 0 {
                        gone
                    } else if kind == TrackedKind::Note && !d.note_named {
                        DispVal::Park {
                            class: ParkClass::Lasting,
                            reason: "a note must be named *.md (server name: "@ + d.name + ")"@,
                        }
                    } else {
                        match oversized(spelled(rel, d.encoded, rules), rules) {
                            Some(component) => DispVal::Park {
                                class: ParkClass::Lasting,
                                reason: "not representable on this filesystem: "@ + too_long_text(
                                    component,
                                ),
                            },
                            None => DispVal::Put {
                                kind,
                                local: SpotVal {
                                    path: spelled(rel, d.encoded, rules),
                                    fold: d.fold,
                                },
                                text: match kind {
                                    TrackedKind::Folder => Seq::empty(),
                                    TrackedKind::Note => match d.body {
                                        Some(b) => b,
                                        None => Seq::empty(),
                                    },
                                    TrackedKind::Attachment => d.marker_text,
                                },
                                marker: match kind {
                                    TrackedKind::Attachment => Some(
                                        match first_free(d.marker_spots, idx, controls, d.id) {
                                            Some(s) => s,
                                            None => SpotVal {
                                                path: relocated(ws, d.id),
                                                fold: relocated(ws, d.id),
                                            },
                                        },
                                    ),
                                    _ => None,
                                },
                            },
                        }
                    },
                }
            },
        }
    }
}

fn spot_collides(spot: &Spot, idx: &ClaimIndex, controls: &Vec<String>, id: u128) -> (r: bool)
    ensures
        r == collides(spot.view(), idx.view(), strs(controls@), id),
{
    let p = chars_of(spot.path.as_str());
    for c in 0..controls.len()
        invariant
            p@ == spot.path@,
            forall|j: int| 0 <= j < c ==> !same_ascii(#[trigger] strs(controls@)[j], spot.path@),
    {
        let k = chars_of(controls[c].as_str());
        if eq_ignore_ascii_case(&k, &p) {
            assert(same_ascii(strs(controls@)[c as int], spot.path@));
            return true;
        }
    }
    match idx.owner(spot.fold.as_str()) {
        Some(o) => o != id,
        None => false,
    }
}

fn free_spot(candidates: &Vec<Spot>, idx: &ClaimIndex, controls: &Vec<String>, id: u128) -> (r: Option<
    Spot,
>)
    ensures
        opt_spot(r) == first_free(spots(candidates@), idx.view(), strs(controls@), id),
{
    let ghost all = spots(candidates@);
    assert(all.skip(0) =~= all);
    for i in 0..candidates.len()
        invariant
            all == spots(candidates@),
            first_free(all, idx.view(), strs(controls@), id) == first_free(
                all.skip(i as int),
                idx.view(),
                strs(controls@),
                id,
            ),
    {
        assert(all.skip(i as int)[0] == candidates@[i as int].view());
        assert(all.skip(i as int).drop_first() =~= all.skip(i + 1));
        if !spot_collides(&candidates[i], idx, controls, id) {
            return Some(candidates[i].copy());
        }
    }
    None
}

/// Classify one delivery: everything but the verdict on collisions, which needs the whole page,
/// and the disk, which waits for that verdict. `controls` holds the control files of a mount.
pub fn classify(
    state: &WsState,
    idx: &ClaimIndex,
    ws: u128,
    scope: Option<&str>,
    controls: &Vec<String>,
    rules: &FsRules,
    d: &Delivered,
) -> (r: Disp)
    ensures
        r.view() == classified(
            state.nodes_v().dom().contains(d.id),
            idx.view(),
            ws,
            opt_ref(scope),
            strs(controls@),
            *rules,
            d.view(),
        ),
{
    let known: bool = state.node(d.id).is_some();
    let kind: TrackedKind = match kind_of(d.kind.as_str()) {
        Some(k) if !d.trashed && !has_reserved_segment(d.path.as_str()) => k,
        _ => {
            return if known {
                Disp::Remove
            } else {
                Disp::LedgerOnly
            };
        },
    };
    if in_docli_namespace(d.path.as_str()) {
        return Disp::Park {
            class: ParkClass::Lasting,
            reason: "the .docli namespace is reserved for CLI control files".to_owned(),
        };
    }
    let rel: &str = match scope_relative(d.path.as_str(), scope) {
        Some(rel) if !rel.is_empty() => rel,
        _ => {
            return if known {
                Disp::Remove
            } else {
                Disp::LedgerOnly
            };
        },
    };
    if kind == TrackedKind::Note && !d.note_named {
        return Disp::Park {
            class: ParkClass::Lasting,
            reason: cat3("a note must be named *.md (server name: ", d.name.as_str(), ")"),
        };
    }
    let local: Spot = match project(rel, d.encoded.as_str(), rules) {
        Ok(path) => Spot { path, fold: d.fold.clone() },
        Err(e) => {
            let why = e.message();
            return Disp::Park {
                class: ParkClass::Lasting,
                reason: cat2("not representable on this filesystem: ", why.as_str()),
            };
        },
    };
    match kind {
        TrackedKind::Folder => Disp::Put { kind, local, text: String::new(), marker: None },
        TrackedKind::Note => Disp::Put {
            kind,
            local,
            text: match &d.body {
                Some(b) => b.clone(),
                None => String::new(),
            },
            marker: None,
        },
        TrackedKind::Attachment => {
            let marker: Spot = match free_spot(&d.marker_spots, idx, controls, d.id) {
                Some(s) => s,
                None => {
                    let p = relocated_marker(ws, d.id);
                    Spot { path: p.clone(), fold: p }
                },
            };
            Disp::Put { kind, local, text: d.marker_text.clone(), marker: Some(marker) }
        },
    }
}

} // verus!
