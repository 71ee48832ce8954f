//! When the account of a mount is clean, stated over what the server, the state and the disk hold.
//!
//! The account itself is put together row by row. What is stated here does not go by the rows: which
//! server nodes are expected on disk and where, that a mirror which holds exactly them raises no
//! finding, that every departure from it raises one of the right class, and that what a sync writes
//! is what the account looks for.

use vstd::prelude::*;

use crate::apply::leaf_of;
use crate::apply::Claims;
use crate::apply::DeliveredVal;
use crate::digest::hex_of;
use crate::digest::sha256_of;
use crate::doctor::absorbed;
use crate::doctor::account;
use crate::doctor::disk_rows;
use crate::doctor::disk_upto;
use crate::doctor::expectation;
use crate::doctor::expected_from;
use crate::doctor::expected_of;
use crate::doctor::faults;
use crate::doctor::faults_upto;
use crate::doctor::holders;
use crate::doctor::lemma_holders;
use crate::doctor::lemma_tracked_at;
use crate::doctor::names_leaf;
use crate::doctor::opening_rows;
use crate::doctor::orphan_rows;
use crate::doctor::orphans_upto;
use crate::doctor::park_rows;
use crate::doctor::probe_at;
use crate::doctor::stray_upto;
use crate::doctor::tracked_at;
use crate::doctor::DiskEntry;
use crate::doctor::ExpectedVal;
use crate::doctor::Findings;
use crate::doctor::Leaf;
use crate::doctor::Probe;
use crate::doctor::ProbeVal;
use crate::doctor::Progress;
use crate::doctor::RowVal;
use crate::doctor::ServerVal;
use crate::localpath::FsRules;
use crate::outcome::a_delivery_is_written_as_the_server_has_it;
use crate::outcome::fits;
use crate::outcome::lemma_docli;
use crate::outcome::lemma_lies_at;
use crate::outcome::lemma_oversized;
use crate::outcome::lemma_reserved;
use crate::outcome::lies_at;
use crate::outcome::names_a_control_directory;
use crate::outcome::names_a_control_file;
use crate::outcome::shown_as;
use crate::page::PlaceVal;
use crate::plan::planned;
use crate::state::lemma_roll_exists;
use crate::state::roll;
use crate::state::NodeVal;
use crate::state::ParkVal;
use crate::state::TrackedKind;
use crate::state::WsState;

verus! {

proof fn lemma_expected_from(
    nodes: Map<u128, NodeVal>,
    parked: Set<u128>,
    ws: u128,
    scope: Option<Seq<char>>,
    rules: FsRules,
    tree: Map<u128, ServerVal>,
    ids: Seq<u128>,
)
    ensures
        forall|id: u128| #[trigger]
            ids.contains(id) && expectation(
                nodes,
                parked,
                ws,
                scope,
                rules,
                tree[id],
                id,
            ) is Some ==> expected_from(nodes, parked, ws, scope, rules, tree, ids).contains(
                expectation(nodes, parked, ws, scope, rules, tree[id], id)->0,
            ),
        forall|k: int|
            0 <= k < expected_from(nodes, parked, ws, scope, rules, tree, ids).len() ==> {
                let e = #[trigger] expected_from(nodes, parked, ws, scope, rules, tree, ids)[k];
                ids.contains(e.id) && expectation(
                    nodes,
                    parked,
                    ws,
                    scope,
                    rules,
                    tree[e.id],
                    e.id,
                ) == Some(e)
            },
    decreases ids.len(),
{
    if ids.len() > 0 {
        let rest = ids.drop_last();
        lemma_expected_from(nodes, parked, ws, scope, rules, tree, rest);
        let before = expected_from(nodes, parked, ws, scope, rules, tree, rest);
        let all = expected_from(nodes, parked, ws, scope, rules, tree, ids);
        assert forall|id: u128| #[trigger]
            ids.contains(id) && expectation(
                nodes,
                parked,
                ws,
                scope,
                rules,
                tree[id],
                id,
            ) is Some implies all.contains(
            expectation(nodes, parked, ws, scope, rules, tree[id], id)->0,
        ) by {
            let e = expectation(nodes, parked, ws, scope, rules, tree[id], id)->0;
            if id == ids.last() {
                assert(all[before.len() as int] == e);
            } else {
                let j = choose|j: int| 0 <= j < ids.len() && ids[j] == id;
                assert(rest[j] == id);
                assert(rest.contains(id));
                let q = choose|q: int| 0 <= q < before.len() && before[q] == e;
                assert(all[q] == e);
            }
        }
        assert forall|k: int| 0 <= k < all.len() implies {
            let e = #[trigger] all[k];
            ids.contains(e.id) && expectation(nodes, parked, ws, scope, rules, tree[e.id], e.id)
                == Some(e)
        } by {
            if k < before.len() {
                let e = before[k];
                assert(all[k] == e);
                let j = choose|j: int| 0 <= j < rest.len() && rest[j] == e.id;
                assert(ids[j] == e.id);
            } else {
                assert(ids[ids.len() - 1] == ids.last());
            }
        }
    }
}

/// Every node of the server that the mirror can hold and that is not held back is expected on disk,
/// at the path that mirrors its server path, an attachment at its marker: the one that the state
/// remembers, else the one beside it.
pub proof fn what_the_mirror_can_hold_is_expected(
    state: &WsState,
    ws: u128,
    scope: Option<Seq<char>>,
    rules: FsRules,
    tree: Map<u128, ServerVal>,
    id: u128,
    rel: Seq<char>,
)
    requires
        tree.dom().finite(),
        tree.dom().contains(id),
        !state.parks_v().dom().contains(id),
        tree[id].kind == "file"@ || tree[id].kind == "folder"@ || tree[id].kind == "attachment"@,
        tree[id].kind == "file"@ ==> tree[id].note_named,
        lies_at(tree[id].path, scope, rel),
        !names_a_control_directory(tree[id].path),
        !names_a_control_file(tree[id].path),
        fits(shown_as(rel, tree[id].encoded, rules), rules),
    ensures
        ({
            let es = expected_of(state, ws, scope, rules, tree);
            let n = tree[id];
            let local = if rules.win_names {
                n.encoded
            } else {
                rel
            };
            exists|k: int|
                #![trigger es[k]]
                0 <= k < es.len() && es[k].id == id && (n.kind == "file"@ ==> es[k].kind
                    == TrackedKind::Note) && (n.kind == "folder"@ ==> es[k].kind
                    == TrackedKind::Folder) && (n.kind == "attachment"@ ==> es[k].kind
                    == TrackedKind::Attachment) && (n.kind != "attachment"@ ==> es[k].spot.path
                    == local && es[k].spot.fold == n.fold && es[k].place == Some(
                    PlaceVal::Mount(local),
                )) && (n.kind == "attachment"@ && state.nodes_v().dom().contains(id)
                    && state.nodes_v()[id].marker is Some ==> es[k].spot
                    == state.nodes_v()[id].marker->0) && (n.kind == "attachment"@ && !(
                state.nodes_v().dom().contains(id) && state.nodes_v()[id].marker is Some)
                    ==> es[k].spot.path == local + ".docli"@ && es[k].spot.fold == n.marker_fold)
        }),
{
    reveal_strlit("file");
    reveal_strlit("folder");
    reveal_strlit("attachment");
    assert("file"@.len() == 4 && "folder"@.len() == 6 && "attachment"@.len() == 10);
    let n = tree[id];
    let nodes = state.nodes_v();
    let parked = state.parks_v().dom();
    lemma_roll_exists(tree.dom());
    let ids = roll(tree.dom());
    assert(ids.contains(id));
    lemma_reserved(n.path);
    lemma_docli(n.path);
    lemma_lies_at(n.path, scope, rel);
    lemma_oversized(shown_as(rel, n.encoded, rules), rules);
    lemma_expected_from(nodes, parked, ws, scope, rules, tree, ids);
    let e = expectation(nodes, parked, ws, scope, rules, n, id)->0;
    assert(expectation(nodes, parked, ws, scope, rules, n, id) is Some);
    let es = expected_of(state, ws, scope, rules, tree);
    assert(es.contains(e));
    let k = choose|k: int| 0 <= k < es.len() && es[k] == e;
    assert(es[k].id == id);
}

/// Nothing else is expected: every expectation is that of a node of the server which the mirror can
/// hold and which is not held back.
pub proof fn only_what_the_mirror_can_hold_is_expected(
    state: &WsState,
    ws: u128,
    scope: Option<Seq<char>>,
    rules: FsRules,
    tree: Map<u128, ServerVal>,
    k: int,
)
    requires
        tree.dom().finite(),
        0 <= k < expected_of(state, ws, scope, rules, tree).len(),
    ensures
        ({
            let e = expected_of(state, ws, scope, rules, tree)[k];
            let n = tree[e.id];
            &&& tree.dom().contains(e.id)
            &&& !state.parks_v().dom().contains(e.id)
            &&& e.kind == TrackedKind::Note ==> n.kind == "file"@ && n.note_named
            &&& e.kind == TrackedKind::Folder ==> n.kind == "folder"@
            &&& e.kind == TrackedKind::Attachment ==> n.kind == "attachment"@
            &&& !names_a_control_directory(n.path)
            &&& !names_a_control_file(n.path)
            &&& exists|rel: Seq<char>| #[trigger]
                lies_at(n.path, scope, rel) && fits(shown_as(rel, n.encoded, rules), rules)
        }),
{
    let nodes = state.nodes_v();
    let parked = state.parks_v().dom();
    lemma_roll_exists(tree.dom());
    let ids = roll(tree.dom());
    lemma_expected_from(nodes, parked, ws, scope, rules, tree, ids);
    let e = expected_of(state, ws, scope, rules, tree)[k];
    let n = tree[e.id];
    assert(ids.contains(e.id));
    lemma_reserved(n.path);
    lemma_docli(n.path);
    let rel = crate::localpath::in_scope(n.path, scope)->0;
    lemma_lies_at(n.path, scope, rel);
    lemma_oversized(shown_as(rel, n.encoded, rules), rules);
    assert(lies_at(n.path, scope, rel));
}

/// What an expectation asks for is there and tracked: a directory for a folder; for a note a file
/// with exactly the bytes of the server's body, an empty one where it has none; for an attachment a
/// file with exactly the bytes of its marker.
pub open spec fn is_met(
    nodes: Map<u128, NodeVal>,
    n: ServerVal,
    e: ExpectedVal,
    probe: ProbeVal,
) -> bool {
    &&& nodes.dom().contains(e.id)
    &&& e.kind == TrackedKind::Folder ==> probe is Directory && nodes[e.id].kind
        == TrackedKind::Folder && nodes[e.id].local.path == e.spot.path
    &&& e.kind == TrackedKind::Note ==> (match n.body {
        Some(b) => probe == ProbeVal::File(vstd::utf8::encode_utf8(b)),
        None => probe == ProbeVal::File(vstd::utf8::encode_utf8(Seq::empty())),
    }) && nodes[e.id].kind == TrackedKind::Note && nodes[e.id].local.path == e.spot.path
        && forall|id: u128| #[trigger]
        nodes.dom().contains(id) && nodes[id].local.path == e.spot.path ==> id == e.id
    &&& e.kind == TrackedKind::Attachment ==> probe == ProbeVal::File(
        vstd::utf8::encode_utf8(n.marker_text),
    ) && nodes[e.id].kind == TrackedKind::Attachment && nodes[e.id].marker is Some
        && nodes[e.id].marker->0.path == e.spot.path
}

proof fn lemma_tracked_where(nodes: Map<u128, NodeVal>, ids: Seq<u128>, path: Seq<char>, id: u128)
    requires
        ids.contains(id),
        nodes[id].local.path == path,
        forall|o: u128| #[trigger] ids.contains(o) && nodes[o].local.path == path ==> o == id,
    ensures
        tracked_at(nodes, ids, path) == Some(id),
    decreases ids.len(),
{
    let rest = ids.drop_last();
    lemma_tracked_at(nodes, rest, path);
    if let Some(o) = tracked_at(nodes, rest, path) {
        let j = choose|j: int| 0 <= j < rest.len() && rest[j] == o;
        assert(ids[j] == o);
        assert(ids.contains(o));
    } else {
        if ids.last() != id {
            let j = choose|j: int| 0 <= j < ids.len() && ids[j] == id;
            assert(rest[j] == id);
            assert(rest.contains(id));
            assert forall|o: u128| #[trigger]
                rest.contains(o) && nodes[o].local.path == path implies o == id by {
                let q = choose|q: int| 0 <= q < rest.len() && rest[q] == o;
                assert(ids[q] == o);
                assert(ids.contains(o));
            }
            lemma_tracked_where(nodes, rest, path, id);
        }
    }
}

/// An expectation that is met raises nothing.
pub proof fn what_is_met_raises_nothing(
    nodes: Map<u128, NodeVal>,
    n: ServerVal,
    e: ExpectedVal,
    probe: ProbeVal,
)
    requires
        nodes.dom().finite(),
        is_met(nodes, n, e, probe),
    ensures
        faults(nodes, n, e, probe).len() == 0,
{
    lemma_roll_exists(nodes.dom());
    let ids = roll(nodes.dom());
    if e.kind == TrackedKind::Note {
        assert(ids.contains(e.id));
        assert forall|o: u128| #[trigger]
            ids.contains(o) && nodes[o].local.path == e.spot.path implies o == e.id by {
            assert(nodes.dom().contains(o));
        }
        lemma_tracked_where(nodes, ids, e.spot.path, e.id);
    }
}

proof fn lemma_faultless(
    nodes: Map<u128, NodeVal>,
    tree: Map<u128, ServerVal>,
    es: Seq<ExpectedVal>,
    probes: Seq<Probe>,
    k: int,
)
    requires
        0 <= k <= es.len(),
        nodes.dom().finite(),
        forall|j: int|
            0 <= j < es.len() ==> is_met(
                nodes,
                tree[es[j].id],
                #[trigger] es[j],
                probe_at(probes, j),
            ),
    ensures
        faults_upto(nodes, tree, es, probes, k).len() == 0,
    decreases k,
{
    if k > 0 {
        lemma_faultless(nodes, tree, es, probes, k - 1);
        assert(is_met(nodes, tree[es[k - 1].id], es[k - 1], probe_at(probes, k - 1)));
        what_is_met_raises_nothing(nodes, tree[es[k - 1].id], es[k - 1], probe_at(probes, k - 1));
    }
}

proof fn lemma_no_rows_of_holders(nodes: Map<u128, NodeVal>, es: Seq<ExpectedVal>, k: int)
    requires
        0 <= k <= es.len() <= usize::MAX,
        forall|i: int, j: int|
            0 <= i < es.len() && 0 <= j < es.len() && (#[trigger] es[i]).spot.fold == (
            #[trigger] es[j]).spot.fold ==> es[i].id == es[j].id,
    ensures
        holders(nodes, es, k).rows.len() == 0,
        forall|j: int|
            0 <= j < k ==> holders(nodes, es, k).by_fold.dom().contains(
                (#[trigger] es[j]).spot.fold,
            ),
    decreases k,
{
    if k > 0 {
        lemma_no_rows_of_holders(nodes, es, k - 1);
        lemma_holders(nodes, es, k - 1);
        let before = holders(nodes, es, k - 1);
        let fold = es[k - 1].spot.fold;
        if before.by_fold.dom().contains(fold) {
            assert(es[before.by_fold[fold] as int].id == es[k - 1].id);
        }
    }
}

proof fn lemma_nothing_strange(
    disk: Seq<DiskEntry>,
    folds: Set<Seq<char>>,
    controls: Seq<Seq<char>>,
    k: int,
)
    requires
        0 <= k <= disk.len(),
        forall|j: int|
            0 <= j < disk.len() ==> controls.contains((#[trigger] disk[j]).path@) || folds.contains(
                disk[j].fold@,
            ),
    ensures
        disk_upto(disk, folds, controls, k).len() == 0,
    decreases k,
{
    if k > 0 {
        lemma_nothing_strange(disk, folds, controls, k - 1);
        assert(controls.contains(disk[k - 1].path@) || folds.contains(disk[k - 1].fold@));
    }
}

proof fn lemma_nothing_stray(es: Seq<ExpectedVal>, ws: u128, leaves: Seq<Leaf>, k: int)
    requires
        0 <= k <= leaves.len(),
        forall|l: int|
            0 <= l < leaves.len() ==> names_leaf(es, ws, (#[trigger] leaves[l]).name@),
    ensures
        stray_upto(es, ws, leaves, k).len() == 0,
    decreases k,
{
    if k > 0 {
        lemma_nothing_stray(es, ws, leaves, k - 1);
        assert(names_leaf(es, ws, leaves[k - 1].name@));
    }
}

proof fn lemma_nothing_orphaned(nodes: Map<u128, NodeVal>, tree: Set<u128>, ids: Seq<u128>, k: int)
    requires
        0 <= k <= ids.len(),
        forall|j: int| 0 <= j < ids.len() ==> tree.contains(#[trigger] ids[j]),
    ensures
        orphans_upto(nodes, tree, ids, k).len() == 0,
    decreases k,
{
    if k > 0 {
        lemma_nothing_orphaned(nodes, tree, ids, k - 1);
        assert(tree.contains(ids[k - 1]));
    }
}

/// A mirror that holds exactly what it should raises no finding: the state is there and complete,
/// nothing is held back, every expected node is on disk to the byte and tracked there, no two of
/// them share a file, everything on disk is expected or a control file of the mount, every file in
/// the workspace's directory of markers is an expected marker, and every tracked node is on the
/// server.
pub proof fn a_true_mirror_has_a_clean_account(
    dir: Seq<char>,
    state: &WsState,
    state_found: bool,
    progress: Progress,
    ws: u128,
    scope: Option<Seq<char>>,
    rules: FsRules,
    tree: Map<u128, ServerVal>,
    controls: Seq<Seq<char>>,
    f: Findings,
)
    requires
        state.nodes_v().dom().finite(),
        expected_of(state, ws, scope, rules, tree).len() <= usize::MAX,
        state_found,
        !progress.from_zero,
        progress.at_head,
        state.parks_v().dom() == Set::<u128>::empty(),
        state.nodes_v().dom().subset_of(tree.dom()),
        ({
            let es = expected_of(state, ws, scope, rules, tree);
            &&& forall|k: int|
                0 <= k < es.len() ==> is_met(
                    state.nodes_v(),
                    tree[es[k].id],
                    #[trigger] es[k],
                    probe_at(f.probes@, k),
                )
            &&& forall|i: int, j: int|
                0 <= i < es.len() && 0 <= j < es.len() && (#[trigger] es[i]).spot.fold == (
                #[trigger] es[j]).spot.fold ==> es[i].id == es[j].id
            &&& forall|d: int|
                0 <= d < f.disk@.len() ==> controls.contains((#[trigger] f.disk@[d]).path@)
                    || exists|k: int|
                    0 <= k < es.len() && (#[trigger] es[k]).spot.fold == f.disk@[d].fold@
            &&& forall|l: int|
                0 <= l < f.leaves@.len() ==> exists|k: int|
                    0 <= k < es.len() && leaf_of((#[trigger] es[k]).spot.path, ws) == Some(
                        (#[trigger] f.leaves@[l]).name@,
                    )
        }),
    ensures
        account(dir, state, state_found, progress, ws, scope, rules, tree, controls, f).len() == 0,
{
    let es = expected_of(state, ws, scope, rules, tree);
    let nodes = state.nodes_v();
    let n = es.len() as int;
    let held = holders(nodes, es, n);
    lemma_faultless(nodes, tree, es, f.probes@, n);
    lemma_no_rows_of_holders(nodes, es, n);
    assert forall|j: int| 0 <= j < f.disk@.len() implies controls.contains(
        (#[trigger] f.disk@[j]).path@,
    ) || held.by_fold.dom().contains(f.disk@[j].fold@) by {
        if !controls.contains(f.disk@[j].path@) {
            let k = choose|k: int|
                0 <= k < es.len() && (#[trigger] es[k]).spot.fold == f.disk@[j].fold@;
            assert(held.by_fold.dom().contains(es[k].spot.fold));
        }
    }
    lemma_nothing_strange(f.disk@, held.by_fold.dom(), controls, f.disk@.len() as int);
    lemma_nothing_stray(es, ws, f.leaves@, f.leaves@.len() as int);
    lemma_roll_exists(nodes.dom());
    let ids = roll(nodes.dom());
    assert forall|j: int| 0 <= j < ids.len() implies tree.dom().contains(#[trigger] ids[j]) by {
        assert(ids.contains(ids[j]));
        assert(nodes.dom().contains(ids[j]));
    }
    lemma_nothing_orphaned(nodes, tree.dom(), ids, ids.len() as int);
    let parked = state.parks_v().dom();
    lemma_roll_exists(parked);
    assert(roll(parked).len() == 0) by {
        if roll(parked).len() > 0 {
            assert(roll(parked).contains(roll(parked)[0]));
        }
    }
    let a = opening_rows(dir, state_found, progress);
    let b = park_rows(state.parks_v());
    let c = faults_upto(nodes, tree, es, f.probes@, n);
    let d = disk_upto(f.disk@, held.by_fold.dom(), controls, f.disk@.len() as int);
    let e = stray_upto(es, ws, f.leaves@, f.leaves@.len() as int);
    let o = orphan_rows(nodes, tree.dom());
    assert((a + b + c + held.rows + d + e + o).len() == a.len() + b.len() + c.len()
        + held.rows.len() + d.len() + e.len() + o.len());
}

/// Some row of an account is of that class and about that path.
pub open spec fn reports(rows: Seq<RowVal>, class: Seq<char>, path: Seq<char>) -> bool {
    exists|i: int| 0 <= i < rows.len() && (#[trigger] rows[i]).class == class && rows[i].path == path
}

proof fn lemma_faults_reported(
    nodes: Map<u128, NodeVal>,
    tree: Map<u128, ServerVal>,
    es: Seq<ExpectedVal>,
    probes: Seq<Probe>,
    k: int,
    j: int,
    class: Seq<char>,
    path: Seq<char>,
)
    requires
        0 <= j < k <= es.len(),
        reports(faults(nodes, tree[es[j].id], es[j], probe_at(probes, j)), class, path),
    ensures
        reports(faults_upto(nodes, tree, es, probes, k), class, path),
    decreases k,
{
    let before = faults_upto(nodes, tree, es, probes, k - 1);
    let own = faults(nodes, tree[es[k - 1].id], es[k - 1], probe_at(probes, k - 1));
    let all = faults_upto(nodes, tree, es, probes, k);
    if j < k - 1 {
        lemma_faults_reported(nodes, tree, es, probes, k - 1, j, class, path);
        let i = choose|i: int|
            0 <= i < before.len() && (#[trigger] before[i]).class == class && before[i].path
                == path;
        assert(all[i] == before[i]);
    } else {
        let i = choose|i: int|
            0 <= i < own.len() && (#[trigger] own[i]).class == class && own[i].path == path;
        assert(all[before.len() + i] == own[i]);
    }
}

/// A departure on disk is reported, by its class and at its path: what is not there is missing, a
/// note whose bytes have another digest than the server's body differs, and a marker whose bytes
/// are not its text has drifted.
pub proof fn a_departure_on_disk_is_reported(
    dir: Seq<char>,
    state: &WsState,
    state_found: bool,
    progress: Progress,
    ws: u128,
    scope: Option<Seq<char>>,
    rules: FsRules,
    tree: Map<u128, ServerVal>,
    controls: Seq<Seq<char>>,
    f: Findings,
    k: int,
)
    requires
        0 <= k < expected_of(state, ws, scope, rules, tree).len(),
    ensures
        ({
            let e = expected_of(state, ws, scope, rules, tree)[k];
            let n = tree[e.id];
            let found = probe_at(f.probes@, k);
            let rows = account(
                dir,
                state,
                state_found,
                progress,
                ws,
                scope,
                rules,
                tree,
                controls,
                f,
            );
            &&& e.kind == TrackedKind::Folder && !(found is Directory) ==> reports(
                rows,
                "missing-local"@,
                e.spot.path,
            )
            &&& e.kind != TrackedKind::Folder && !(found is File) ==> reports(
                rows,
                "missing-local"@,
                e.spot.path,
            )
            &&& e.kind == TrackedKind::Note && found is File && n.body is Some && hex_of(
                sha256_of(found->File_0),
            ) != hex_of(sha256_of(vstd::utf8::encode_utf8(n.body->0))) ==> reports(
                rows,
                "digest-mismatch"@,
                e.spot.path,
            )
            &&& e.kind == TrackedKind::Note && found is File && n.body is None && hex_of(
                sha256_of(found->File_0),
            ) != hex_of(sha256_of(vstd::utf8::encode_utf8(Seq::empty()))) ==> reports(
                rows,
                "digest-mismatch"@,
                e.spot.path,
            )
            &&& e.kind == TrackedKind::Attachment && found is File && found->File_0
                != vstd::utf8::encode_utf8(n.marker_text) ==> reports(
                rows,
                "marker-drift"@,
                e.spot.path,
            )
        }),
{
    let nodes = state.nodes_v();
    let es = expected_of(state, ws, scope, rules, tree);
    let m = es.len() as int;
    let e = es[k];
    let n = tree[e.id];
    let found = probe_at(f.probes@, k);
    let own = faults(nodes, n, e, found);
    let rows = account(dir, state, state_found, progress, ws, scope, rules, tree, controls, f);
    let all = faults_upto(nodes, tree, es, f.probes@, m);
    let front = opening_rows(dir, state_found, progress) + park_rows(state.parks_v());
    if own.len() > 0 {
        assert(reports(own, own[0].class, e.spot.path)) by {
            assert(own[0].path == e.spot.path);
        }
        lemma_faults_reported(nodes, tree, es, f.probes@, m, k, own[0].class, e.spot.path);
        let i = choose|i: int|
            0 <= i < all.len() && (#[trigger] all[i]).class == own[0].class && all[i].path
                == e.spot.path;
        assert(rows[front.len() + i] == all[i]);
        assert(reports(rows, own[0].class, e.spot.path));
    }
}

proof fn lemma_in_account(a: Seq<RowVal>, part: Seq<RowVal>, z: Seq<RowVal>, i: int)
    requires
        0 <= i < part.len(),
    ensures
        reports(a + part + z, part[i].class, part[i].path),
{
    let all = a + part + z;
    assert(all[a.len() + i] == part[i]);
}

proof fn lemma_disk_reported(
    disk: Seq<DiskEntry>,
    folds: Set<Seq<char>>,
    controls: Seq<Seq<char>>,
    k: int,
    j: int,
) -> (at: int)
    requires
        0 <= j < k <= disk.len(),
        !controls.contains(disk[j].path@),
        !folds.contains(disk[j].fold@),
    ensures
        0 <= at < disk_upto(disk, folds, controls, k).len(),
        disk_upto(disk, folds, controls, k)[at].path == disk[j].path@,
        disk_upto(disk, folds, controls, k)[at].class == (if !disk[j].is_dir && disk[j].write_temp {
            "crash-residue"@
        } else {
            "missing-remote"@
        }),
    decreases k,
{
    let before = disk_upto(disk, folds, controls, k - 1);
    if j < k - 1 {
        lemma_disk_reported(disk, folds, controls, k - 1, j)
    } else {
        let own = disk_rows(disk[j].view(), folds, controls);
        assert(disk_upto(disk, folds, controls, k)[before.len() as int] == own[0]);
        before.len() as int
    }
}

/// What lies in the mirror without being expected is reported, at its path: as the residue of an
/// interrupted write where it is a file that is named so, and as unknown to the server elsewhere.
pub proof fn a_stranger_on_disk_is_reported(
    dir: Seq<char>,
    state: &WsState,
    state_found: bool,
    progress: Progress,
    ws: u128,
    scope: Option<Seq<char>>,
    rules: FsRules,
    tree: Map<u128, ServerVal>,
    controls: Seq<Seq<char>>,
    f: Findings,
    j: int,
)
    requires
        expected_of(state, ws, scope, rules, tree).len() <= usize::MAX,
        0 <= j < f.disk@.len(),
        !controls.contains(f.disk@[j].path@),
        forall|k: int|
            0 <= k < expected_of(state, ws, scope, rules, tree).len() ==> (
            #[trigger] expected_of(state, ws, scope, rules, tree)[k]).spot.fold
                != f.disk@[j].fold@,
    ensures
        reports(
            account(dir, state, state_found, progress, ws, scope, rules, tree, controls, f),
            if !f.disk@[j].is_dir && f.disk@[j].write_temp {
                "crash-residue"@
            } else {
                "missing-remote"@
            },
            f.disk@[j].path@,
        ),
{
    let nodes = state.nodes_v();
    let es = expected_of(state, ws, scope, rules, tree);
    let m = es.len() as int;
    let held = holders(nodes, es, m);
    lemma_holders(nodes, es, m);
    if held.by_fold.dom().contains(f.disk@[j].fold@) {
        assert(es[held.by_fold[f.disk@[j].fold@] as int].spot.fold == f.disk@[j].fold@);
    }
    let d = disk_upto(f.disk@, held.by_fold.dom(), controls, f.disk@.len() as int);
    let at = lemma_disk_reported(
        f.disk@,
        held.by_fold.dom(),
        controls,
        f.disk@.len() as int,
        j,
    );
    let a = opening_rows(dir, state_found, progress) + park_rows(state.parks_v()) + faults_upto(
        nodes,
        tree,
        es,
        f.probes@,
        m,
    ) + held.rows;
    let z = stray_upto(es, ws, f.leaves@, f.leaves@.len() as int) + orphan_rows(nodes, tree.dom());
    assert(account(dir, state, state_found, progress, ws, scope, rules, tree, controls, f) =~= a + d
        + z);
    lemma_in_account(a, d, z, at);
}

/// Everything that is held back is reported as parked, with its server path and its reason.
pub proof fn a_held_back_node_is_reported(
    dir: Seq<char>,
    state: &WsState,
    state_found: bool,
    progress: Progress,
    ws: u128,
    scope: Option<Seq<char>>,
    rules: FsRules,
    tree: Map<u128, ServerVal>,
    controls: Seq<Seq<char>>,
    f: Findings,
    id: u128,
)
    requires
        state.parks_v().dom().finite(),
        state.parks_v().dom().contains(id),
    ensures
        reports(
            account(dir, state, state_found, progress, ws, scope, rules, tree, controls, f),
            "parked"@,
            state.parks_v()[id].server_path,
        ),
{
    let parks = state.parks_v();
    lemma_roll_exists(parks.dom());
    let ids = roll(parks.dom());
    assert(ids.contains(id));
    let j = choose|j: int| 0 <= j < ids.len() && ids[j] == id;
    let rows = account(dir, state, state_found, progress, ws, scope, rules, tree, controls, f);
    let a = opening_rows(dir, state_found, progress);
    assert(rows[a.len() + j] == park_rows(parks)[j]);
}

proof fn lemma_orphan_reported(
    nodes: Map<u128, NodeVal>,
    tree: Set<u128>,
    ids: Seq<u128>,
    k: int,
    j: int,
) -> (at: int)
    requires
        0 <= j < k <= ids.len(),
        !tree.contains(ids[j]),
    ensures
        0 <= at < orphans_upto(nodes, tree, ids, k).len(),
        orphans_upto(nodes, tree, ids, k)[at].class == "state-orphan"@,
        orphans_upto(nodes, tree, ids, k)[at].path == nodes[ids[j]].local.path,
    decreases k,
{
    if j < k - 1 {
        lemma_orphan_reported(nodes, tree, ids, k - 1, j)
    } else {
        orphans_upto(nodes, tree, ids, k - 1).len() as int
    }
}

/// A node that the state tracks and the server does not have is reported as an orphan.
pub proof fn a_tracked_node_without_a_server_node_is_reported(
    dir: Seq<char>,
    state: &WsState,
    state_found: bool,
    progress: Progress,
    ws: u128,
    scope: Option<Seq<char>>,
    rules: FsRules,
    tree: Map<u128, ServerVal>,
    controls: Seq<Seq<char>>,
    f: Findings,
    id: u128,
)
    requires
        state.nodes_v().dom().finite(),
        state.nodes_v().dom().contains(id),
        !tree.dom().contains(id),
    ensures
        reports(
            account(dir, state, state_found, progress, ws, scope, rules, tree, controls, f),
            "state-orphan"@,
            state.nodes_v()[id].local.path,
        ),
{
    let nodes = state.nodes_v();
    let es = expected_of(state, ws, scope, rules, tree);
    let m = es.len() as int;
    let held = holders(nodes, es, m);
    lemma_roll_exists(nodes.dom());
    let ids = roll(nodes.dom());
    assert(ids.contains(id));
    let j = choose|j: int| 0 <= j < ids.len() && ids[j] == id;
    let at = lemma_orphan_reported(nodes, tree.dom(), ids, ids.len() as int, j);
    let a = opening_rows(dir, state_found, progress) + park_rows(state.parks_v()) + faults_upto(
        nodes,
        tree,
        es,
        f.probes@,
        m,
    ) + held.rows + disk_upto(f.disk@, held.by_fold.dom(), controls, f.disk@.len() as int)
        + stray_upto(es, ws, f.leaves@, f.leaves@.len() as int);
    let o = orphan_rows(nodes, tree.dom());
    assert(account(dir, state, state_found, progress, ws, scope, rules, tree, controls, f) =~= a + o
        + Seq::empty());
    lemma_in_account(a, o, Seq::empty(), at);
}

/// A missing state file and a sync that was not completed are each reported on the mount.
pub proof fn an_incomplete_state_is_reported(
    dir: Seq<char>,
    state: &WsState,
    state_found: bool,
    progress: Progress,
    ws: u128,
    scope: Option<Seq<char>>,
    rules: FsRules,
    tree: Map<u128, ServerVal>,
    controls: Seq<Seq<char>>,
    f: Findings,
)
    ensures
        !state_found ==> reports(
            account(dir, state, state_found, progress, ws, scope, rules, tree, controls, f),
            "state-missing"@,
            dir,
        ),
        progress.from_zero || !progress.at_head ==> reports(
            account(dir, state, state_found, progress, ws, scope, rules, tree, controls, f),
            "repair-pending"@,
            dir,
        ),
{
    let rows = account(dir, state, state_found, progress, ws, scope, rules, tree, controls, f);
    let a = opening_rows(dir, state_found, progress);
    if !state_found {
        assert(rows[0] == a[0]);
    }
    if progress.from_zero || !progress.at_head {
        assert(rows[a.len() - 1] == a[a.len() - 1]);
    }
}

/// What a sync writes is what the account looks for: the server node of a delivery that is written
/// is expected where it was written, and with the written text there, and the place tracked, it
/// raises nothing.
pub proof fn what_a_sync_writes_raises_nothing(
    nodes: Map<u128, NodeVal>,
    ledger: Set<u128>,
    parks: Map<u128, ParkVal>,
    idx: Claims,
    ws: u128,
    scope: Option<Seq<char>>,
    controls: Seq<Seq<char>>,
    rules: FsRules,
    page: Seq<DeliveredVal>,
    i: int,
    after: Map<u128, NodeVal>,
    parked: Set<u128>,
    n: ServerVal,
)
    requires
        0 <= i < page.len(),
        planned(nodes, ledger, parks, idx, ws, scope, controls, rules, page)[i] is Put,
        n.kind == page[i].kind,
        n.path == page[i].path,
        n.body == page[i].body,
        n.note_named == page[i].note_named,
        n.encoded == page[i].encoded,
        n.fold == page[i].fold,
        n.marker_text == page[i].marker_text,
        after.dom().finite(),
        after.dom().contains(page[i].id),
        !parked.contains(page[i].id),
        ({
            let put = planned(nodes, ledger, parks, idx, ws, scope, controls, rules, page)[i];
            let own = after[page[i].id];
            &&& own.kind == put->Put_kind
            &&& own.local == put->local
            &&& own.marker == put->marker
            &&& forall|id: u128| #[trigger]
                after.dom().contains(id) && after[id].local.path == put->local.path ==> id
                    == page[i].id
        }),
    ensures
        ({
            let put = planned(nodes, ledger, parks, idx, ws, scope, controls, rules, page)[i];
            let e = expectation(after, parked, ws, scope, rules, n, page[i].id);
            &&& e is Some
            &&& e->0.id == page[i].id
            &&& put->marker is None ==> e->0.spot == put->local
            &&& put->marker is Some ==> e->0.spot == put->marker->0
            &&& faults(
                after,
                n,
                e->0,
                if put->Put_kind == TrackedKind::Folder {
                    ProbeVal::Directory
                } else {
                    ProbeVal::File(vstd::utf8::encode_utf8(put->text))
                },
            ).len() == 0
        }),
{
    a_delivery_is_written_as_the_server_has_it(
        nodes,
        ledger,
        parks,
        idx,
        ws,
        scope,
        controls,
        rules,
        page,
        i,
    );
    let d = page[i];
    let put = planned(nodes, ledger, parks, idx, ws, scope, controls, rules, page)[i];
    let rel = choose|rel: Seq<char>|
        #![trigger lies_at(d.path, scope, rel)]
        lies_at(d.path, scope, rel) && put->local.path == (if rules.win_names {
            d.encoded
        } else {
            rel
        });
    lemma_reserved(d.path);
    lemma_docli(d.path);
    lemma_lies_at(d.path, scope, rel);
    lemma_oversized(put->local.path, rules);
    let e = expectation(after, parked, ws, scope, rules, n, d.id);
    assert(e is Some);
    if put->Put_kind == TrackedKind::Note && d.body is None {
        assert(put->text =~= Seq::empty());
    }
    let probe = if put->Put_kind == TrackedKind::Folder {
        ProbeVal::Directory
    } else {
        ProbeVal::File(vstd::utf8::encode_utf8(put->text))
    };
    assert(is_met(after, n, e->0, probe));
    what_is_met_raises_nothing(after, n, e->0, probe);
}

/// The latest row of an id decides: a live one is the node of the tree, one in the trash takes the
/// id out, and an id without a row is left as it was.
pub proof fn the_latest_row_of_an_id_decides(
    tree: Map<u128, ServerVal>,
    page: Seq<ServerVal>,
    id: u128,
    k: int,
)
    requires
        -1 <= k < page.len(),
        k >= 0 ==> page[k].id == id,
        forall|j: int| k < j < page.len() ==> (#[trigger] page[j]).id != id,
    ensures
        k >= 0 && !page[k].trashed ==> absorbed(tree, page).dom().contains(id) && absorbed(
            tree,
            page,
        )[id] == page[k],
        k >= 0 && page[k].trashed ==> !absorbed(tree, page).dom().contains(id),
        k < 0 ==> (absorbed(tree, page).dom().contains(id) <==> tree.dom().contains(id)) && (
        tree.dom().contains(id) ==> absorbed(tree, page)[id] == tree[id]),
    decreases page.len(),
{
    if page.len() > 0 {
        let rest = page.drop_last();
        if k < page.len() - 1 {
            assert(page[page.len() - 1].id != id);
            assert forall|j: int| k < j < rest.len() implies (#[trigger] rest[j]).id != id by {
                assert(page[j].id != id);
            }
            the_latest_row_of_an_id_decides(tree, rest, id, k);
        }
    }
}

} // verus!
