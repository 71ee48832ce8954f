//! What is told of the accounts: that every finding reaches the printout and the document, and that
//! every rival for a place is named, stated over the findings and the nodes themselves.

use vstd::prelude::*;

use crate::apply::leaf_of;
use crate::clean::reports;
use crate::doctor::account;
use crate::doctor::all_lines;
use crate::doctor::disk_upto;
use crate::doctor::expected_from;
use crate::doctor::expected_of;
use crate::doctor::fault_of_scan;
use crate::doctor::faults_upto;
use crate::doctor::found;
use crate::doctor::holders;
use crate::doctor::lemma_holders;
use crate::doctor::opening_rows;
use crate::doctor::park_rows;
use crate::doctor::printout;
use crate::doctor::report_lines;
use crate::doctor::reports_json;
use crate::doctor::row_lines;
use crate::doctor::rows;
use crate::doctor::step_text;
use crate::doctor::stray_rows;
use crate::doctor::stray_upto;
use crate::doctor::ExpectedVal;
use crate::doctor::FaultVal;
use crate::doctor::Findings;
use crate::doctor::Leaf;
use crate::doctor::MountReport;
use crate::doctor::Progress;
use crate::doctor::RowVal;
use crate::doctor::ServerVal;
use crate::doctor::TreeStep;
use crate::http::failure_message;
use crate::http::ApiFailure;
use crate::ids::id_text;
use crate::json::member;
use crate::json::JsonVal;
use crate::localpath::FsRules;
use crate::state::lemma_roll_exists;
use crate::state::roll;
use crate::state::NodeVal;
use crate::state::TrackedKind;
use crate::state::WsState;
use crate::text::decimal_of;
use crate::text::padded;
use crate::text::signed_of;
use crate::upkeep::lemma_leaf_spells;

verus! {

proof fn lemma_row_lines(v: Seq<RowVal>, k: int, j: int)
    requires
        0 <= j < k <= v.len(),
    ensures
        row_lines(v, k).len() == k,
        row_lines(v, k)[j] == "  "@ + padded(v[j].class, 18) + " "@ + padded(v[j].path, 40) + " "@
            + v[j].detail,
    decreases k,
{
    reveal_with_fuel(row_lines, 2);
    if j < k - 1 {
        lemma_row_lines(v, k - 1, j);
    } else if k > 1 {
        lemma_row_lines(v, k - 1, 0);
    }
}

proof fn lemma_all_lines(all: Seq<MountReport>, k: int, i: int, j: int)
    requires
        0 <= i < k <= all.len(),
        0 <= j < report_lines(all[i]).len(),
    ensures
        all_lines(all, k).contains(report_lines(all[i])[j]),
    decreases k,
{
    let before = all_lines(all, k - 1);
    let told = report_lines(all[k - 1]);
    if i < k - 1 {
        lemma_all_lines(all, k - 1, i, j);
        let p = choose|p: int| 0 <= p < before.len() && before[p] == report_lines(all[i])[j];
        assert((before + told)[p] == report_lines(all[i])[j]);
    } else {
        assert((before + told)[before.len() + j] == report_lines(all[i])[j]);
    }
}

proof fn lemma_printed(all: Seq<MountReport>, i: int, j: int)
    requires
        0 <= i < all.len(),
        0 <= j < report_lines(all[i]).len(),
    ensures
        printout(all).contains(report_lines(all[i])[j]),
{
    lemma_all_lines(all, all.len() as int, i, j);
    let lines = all_lines(all, all.len() as int);
    let p = choose|p: int| 0 <= p < lines.len() && lines[p] == report_lines(all[i])[j];
    assert(printout(all)[p] == report_lines(all[i])[j]);
}

/// Every finding of every mount has a line of its own, with its class, its path and its detail.
pub proof fn every_finding_is_printed(all: Seq<MountReport>, i: int, j: int)
    requires
        0 <= i < all.len(),
        0 <= j < all[i].rows@.len(),
    ensures
        printout(all).contains(
            "  "@ + padded(all[i].rows@[j].class@, 18) + " "@ + padded(all[i].rows@[j].path@, 40)
                + " "@ + all[i].rows@[j].detail@,
        ),
{
    let n = all[i].rows@.len() as int;
    lemma_row_lines(rows(all[i].rows@), n, j);
    assert(rows(all[i].rows@)[j] == all[i].rows@[j].view());
    assert(report_lines(all[i])[1 + j] == row_lines(rows(all[i].rows@), n)[j]);
    lemma_printed(all, i, 1 + j);
}

/// A mount without a finding is called clean, and one with findings is told by their number.
pub proof fn every_mount_is_told(all: Seq<MountReport>, i: int)
    requires
        0 <= i < all.len(),
    ensures
        all[i].rows@.len() == 0 ==> printout(all).contains(all[i].name@ + ": clean"@),
        all[i].rows@.len() > 0 ==> printout(all).contains(
            all[i].name@ + ": discrepancies: "@ + decimal_of(all[i].rows@.len()),
        ),
{
    if all[i].rows@.len() > 0 {
        lemma_row_lines(rows(all[i].rows@), all[i].rows@.len() as int, 0);
    }
    lemma_printed(all, i, 0);
}

proof fn lemma_found(all: Seq<MountReport>, k: int)
    requires
        0 <= k <= all.len(),
    ensures
        found(all, k) == 0 <==> forall|i: int| 0 <= i < k ==> (#[trigger] all[i]).rows@.len() == 0,
    decreases k,
{
    if k > 0 {
        lemma_found(all, k - 1);
        if found(all, k) != 0 && forall|i: int|
            0 <= i < k ==> (#[trigger] all[i]).rows@.len() == 0 {
            assert(all[k - 1].rows@.len() == 0);
        }
    }
}

/// Nothing was found just where no mount has a finding, and the repair is the last word just where
/// something was.
pub proof fn the_repair_is_named_where_something_was_found(all: Seq<MountReport>, i: int)
    ensures
        found(all, all.len() as int) == 0 <==> forall|k: int|
            0 <= k < all.len() ==> (#[trigger] all[k]).rows@.len() == 0,
        0 <= i < all.len() && all[i].rows@.len() > 0 ==> printout(all).last()
            == "\nrepair: `docli sync --full` rebuilds the mirror from the server; the manual equivalent is to delete the cache and then run `docli sync`"@,
        (forall|k: int| 0 <= k < all.len() ==> (#[trigger] all[k]).rows@.len() == 0) ==> printout(
            all,
        ).len() == all.len(),
{
    lemma_found(all, all.len() as int);
    if forall|k: int| 0 <= k < all.len() ==> (#[trigger] all[k]).rows@.len() == 0 {
        lemma_one_line_each(all, all.len() as int);
    }
}

proof fn lemma_one_line_each(all: Seq<MountReport>, k: int)
    requires
        0 <= k <= all.len(),
        forall|i: int| 0 <= i < all.len() ==> (#[trigger] all[i]).rows@.len() == 0,
    ensures
        all_lines(all, k).len() == k,
    decreases k,
{
    if k > 0 {
        lemma_one_line_each(all, k - 1);
        assert(all[k - 1].rows@.len() == 0);
    }
}

/// The document has an element for each mount, in order, with its name and with each of its findings
/// by class, path and detail.
pub proof fn every_finding_is_in_the_document(all: Seq<MountReport>, i: int, j: int)
    requires
        0 <= i < all.len(),
    ensures
        reports_json(all) matches JsonVal::Array(mounts) && mounts.len() == all.len() && member(
            mounts[i],
            "mount"@,
        ) == Some(JsonVal::Text(all[i].name@)) && (member(mounts[i], "discrepancies"@) matches Some(
            JsonVal::Array(found_here),
        ) && found_here.len() == all[i].rows@.len() && (0 <= j < found_here.len() ==> member(
            found_here[j],
            "class"@,
        ) == Some(JsonVal::Text(all[i].rows@[j].class@)) && member(found_here[j], "path"@) == Some(
            JsonVal::Text(all[i].rows@[j].path@),
        ) && member(found_here[j], "detail"@) == Some(JsonVal::Text(all[i].rows@[j].detail@)))),
{
    reveal_strlit("mount");
    reveal_strlit("discrepancies");
    reveal_strlit("class");
    reveal_strlit("detail");
    reveal_strlit("path");
    let mounts = reports_json(all)->Array_0;
    let m = mounts[i]->Object_0;
    assert(m[0].0 == "discrepancies"@ && m[1].0 == "mount"@);
    assert("discrepancies"@ != "mount"@) by {
        assert("discrepancies"@.len() != "mount"@.len());
    }
    crate::json::a_member_is_found_by_its_name(m, 1, "mount"@);
    crate::json::a_member_is_found_by_its_name(m, 0, "discrepancies"@);
    let here = m[0].1->Array_0;
    if 0 <= j < here.len() {
        let r = here[j]->Object_0;
        assert(r[0].0 == "class"@ && r[1].0 == "detail"@ && r[2].0 == "path"@);
        assert("class"@.len() == 5 && "detail"@.len() == 6 && "path"@.len() == 4);
        crate::json::a_member_is_found_by_its_name(r, 0, "class"@);
        crate::json::a_member_is_found_by_its_name(r, 1, "detail"@);
        crate::json::a_member_is_found_by_its_name(r, 2, "path"@);
    }
}

/// A mount that is closed to the account is reported under its name, and every other refusal fails
/// the command: in the server's words, or, in the middle of a scan that a resync ended, with the
/// advice to start over.
pub proof fn only_a_closed_mount_is_reported(f: ApiFailure, first: bool, name: Seq<char>)
    ensures
        f matches ApiFailure::Refused { status, code, message } ==> {
            &&& status == 403 ==> fault_of_scan(f, first, name) == FaultVal::NoAccess(
                "no access to `"@ + name + "`"@,
            )
            &&& status == 402 ==> fault_of_scan(f, first, name) is NotEntitled
            &&& status != 403 && status != 402 ==> fault_of_scan(f, first, name)
                == FaultVal::Failed(failure_message(f))
        },
        f is EpochChanged && first ==> fault_of_scan(f, first, name) == FaultVal::Failed(
            failure_message(f),
        ),
        f is EpochChanged && !first ==> fault_of_scan(f, first, name) == FaultVal::Failed(
            "the workspace was resynced mid-scan — run `docli doctor` again"@,
        ),
{
}

/// A scan that went on or was completed says nothing; one that does not add up says both counts.
pub proof fn a_scan_that_does_not_add_up_says_so(
    rollback: Seq<char>,
    live: i64,
    collected: usize,
)
    ensures
        step_text(TreeStep::More, rollback) is None,
        step_text(TreeStep::Complete, rollback) is None,
        step_text(TreeStep::Rollback, rollback) == Some(rollback),
        step_text(TreeStep::Changed { live, collected }, rollback) == Some(
            "the workspace changed mid-scan (server live count "@ + signed_of(live as int)
                + " vs "@ + decimal_of(collected as nat)
                + " collected) — the reconciliation is inconclusive; run `docli doctor` again"@,
        ),
{
}

/// The state has the node at that very path: an attachment by its marker, anything else by itself.
pub open spec fn is_tracked_at(nodes: Map<u128, NodeVal>, e: ExpectedVal) -> bool {
    nodes.dom().contains(e.id) && (if nodes[e.id].kind == TrackedKind::Attachment {
        nodes[e.id].marker matches Some(m) && m.path == e.spot.path
    } else {
        nodes[e.id].local.path == e.spot.path
    })
}

proof fn lemma_expected_once(
    nodes: Map<u128, NodeVal>,
    parked: Set<u128>,
    ws: u128,
    scope: Option<Seq<char>>,
    rules: FsRules,
    tree: Map<u128, ServerVal>,
    ids: Seq<u128>,
)
    requires
        forall|i: int, j: int| 0 <= i < j < ids.len() ==> ids[i] < ids[j],
    ensures
        ({
            let es = expected_from(nodes, parked, ws, scope, rules, tree, ids);
            &&& forall|k: int| 0 <= k < es.len() ==> (#[trigger] es[k]).id <= ids.last()
            &&& es.len() > 0 ==> ids.len() > 0
            &&& forall|i: int, j: int| 0 <= i < j < es.len() ==> es[i].id < es[j].id
        }),
    decreases ids.len(),
{
    if ids.len() > 0 {
        let short = ids.drop_last();
        lemma_expected_once(nodes, parked, ws, scope, rules, tree, short);
        if short.len() > 0 {
            assert(short.last() == ids[ids.len() - 2]);
            assert(ids[ids.len() - 2] < ids[ids.len() - 1]);
        }
    }
}

/// Of a rival for a place, the finding that names who has it.
pub open spec fn rivalry(path: Seq<char>, winner: u128) -> RowVal {
    RowVal {
        class: "fold-collision"@,
        path,
        detail: "this server path maps to the same physical path as node "@ + id_text(winner)
            + " on this filesystem — `docli sync` will leave one of the conflicting nodes unmaterialized"@,
    }
}

proof fn lemma_rivals(nodes: Map<u128, NodeVal>, es: Seq<ExpectedVal>, k: int, j: int)
    requires
        0 <= j < k <= es.len(),
        es.len() <= usize::MAX,
        forall|a: int, b: int| 0 <= a < b < es.len() ==> es[a].id < es[b].id,
    ensures
        ({
            let h = holders(nodes, es, k);
            let f = es[j].spot.fold;
            let w = h.by_fold[f] as int;
            &&& h.by_fold.dom().contains(f)
            &&& 0 <= w < k
            &&& es[w].spot.fold == f
            &&& w != j ==> exists|o: int|
                0 <= o < k && o != j && (#[trigger] es[o]).spot.fold == f && h.rows.contains(
                    rivalry(es[j].spot.path, es[o].id),
                )
            &&& is_tracked_at(nodes, es[j]) ==> is_tracked_at(nodes, es[w])
        }),
    decreases k,
{
    lemma_holders(nodes, es, k - 1);
    lemma_holders(nodes, es, k);
    let b = holders(nodes, es, k - 1);
    let h = holders(nodes, es, k);
    let e = es[k - 1];
    let f = es[j].spot.fold;
    assert forall|r: RowVal| b.rows.contains(r) implies h.rows.contains(r) by {
        let i = choose|i: int| 0 <= i < b.rows.len() && b.rows[i] == r;
        assert(h.rows[i] == r);
    }
    if j < k - 1 {
        lemma_rivals(nodes, es, k - 1, j);
        let v = b.by_fold[f] as int;
        let w = h.by_fold[f] as int;
        if v != j {
            let o = choose|o: int|
                0 <= o < k - 1 && o != j && (#[trigger] es[o]).spot.fold == f && b.rows.contains(
                    rivalry(es[j].spot.path, es[o].id),
                );
            assert(h.rows.contains(rivalry(es[j].spot.path, es[o].id)));
        } else if w != j {
            assert(w == k - 1);
            assert(h.rows.last() == rivalry(es[j].spot.path, es[w].id));
            assert(h.rows.contains(rivalry(es[j].spot.path, es[w].id)));
        }
    } else if b.by_fold.dom().contains(f) {
        let v = b.by_fold[f] as int;
        assert(es[v].id < e.id);
        if h.by_fold[f] != j {
            assert(h.rows.last() == rivalry(e.spot.path, es[v].id));
            assert(h.rows.contains(rivalry(e.spot.path, es[v].id)));
        }
    }
}

/// Where two nodes of the server come to one place on this disk, the account says of at least one of
/// them which other node stands in its way, and never of the one that the mirror has there against
/// one that it does not.
pub proof fn rivals_for_a_place_are_reported(
    dir: Seq<char>,
    state: &WsState,
    state_found: bool,
    progress: Progress,
    ws: u128,
    scope: Option<Seq<char>>,
    rules: FsRules,
    tree: Map<u128, ServerVal>,
    controls: Seq<Seq<char>>,
    f: Findings,
    i: int,
    j: int,
)
    requires
        tree.dom().finite(),
        expected_of(state, ws, scope, rules, tree).len() <= usize::MAX,
        0 <= i < j < expected_of(state, ws, scope, rules, tree).len(),
        expected_of(state, ws, scope, rules, tree)[i].spot.fold == expected_of(
            state,
            ws,
            scope,
            rules,
            tree,
        )[j].spot.fold,
    ensures
        ({
            let es = expected_of(state, ws, scope, rules, tree);
            let rows = account(
                dir,
                state,
                state_found,
                progress,
                ws,
                scope,
                rules,
                tree,
                controls,
                f,
            );
            let told_of = |x: int|
                exists|o: int|
                    0 <= o < es.len() && o != x && (#[trigger] es[o]).spot.fold == es[i].spot.fold
                        && rows.contains(rivalry(es[x].spot.path, es[o].id));
            &&& told_of(i) || told_of(j)
            &&& is_tracked_at(state.nodes_v(), es[i]) && !is_tracked_at(state.nodes_v(), es[j])
                ==> told_of(j)
            &&& is_tracked_at(state.nodes_v(), es[j]) && !is_tracked_at(state.nodes_v(), es[i])
                ==> told_of(i)
        }),
{
    let nodes = state.nodes_v();
    let es = expected_of(state, ws, scope, rules, tree);
    let m = es.len() as int;
    lemma_roll_exists(tree.dom());
    lemma_expected_once(nodes, state.parks_v().dom(), ws, scope, rules, tree, roll(tree.dom()));
    lemma_rivals(nodes, es, m, i);
    lemma_rivals(nodes, es, m, j);
    let held = holders(nodes, es, m);
    let rows = account(dir, state, state_found, progress, ws, scope, rules, tree, controls, f);
    let a = opening_rows(dir, state_found, progress) + park_rows(state.parks_v()) + faults_upto(
        nodes,
        tree,
        es,
        f.probes@,
        m,
    );
    assert forall|r: RowVal| held.rows.contains(r) implies rows.contains(r) by {
        let k = choose|k: int| 0 <= k < held.rows.len() && held.rows[k] == r;
        assert(rows[a.len() + k] == r);
    }
    let told_of = |x: int|
        exists|o: int|
            0 <= o < es.len() && o != x && (#[trigger] es[o]).spot.fold == es[i].spot.fold
                && rows.contains(rivalry(es[x].spot.path, es[o].id));
    let w = held.by_fold[es[i].spot.fold] as int;
    if w != i {
        let o = choose|o: int|
            0 <= o < m && o != i && (#[trigger] es[o]).spot.fold == es[i].spot.fold
                && held.rows.contains(rivalry(es[i].spot.path, es[o].id));
        assert(rows.contains(rivalry(es[i].spot.path, es[o].id)));
        assert(told_of(i));
    }
    if w != j {
        let o = choose|o: int|
            0 <= o < m && o != j && (#[trigger] es[o]).spot.fold == es[j].spot.fold
                && held.rows.contains(rivalry(es[j].spot.path, es[o].id));
        assert(rows.contains(rivalry(es[j].spot.path, es[o].id)));
        assert(told_of(j));
    }
}

proof fn lemma_stray_reported(es: Seq<ExpectedVal>, ws: u128, leaves: Seq<Leaf>, k: int, j: int)
    requires
        0 <= j < k <= leaves.len(),
        forall|e: int|
            0 <= e < es.len() ==> leaf_of((#[trigger] es[e]).spot.path, ws) != Some(leaves[j].name@),
    ensures
        exists|i: int|
            0 <= i < stray_upto(es, ws, leaves, k).len() && (#[trigger] stray_upto(
                es,
                ws,
                leaves,
                k,
            )[i]).class == (if leaves[j].write_temp {
                "crash-residue"@
            } else {
                "missing-remote"@
            }) && stray_upto(es, ws, leaves, k)[i].path == ".docli/markers/"@ + id_text(ws) + "/"@
                + leaves[j].name@,
    decreases k,
{
    let before = stray_upto(es, ws, leaves, k - 1);
    let all = stray_upto(es, ws, leaves, k);
    if j < k - 1 {
        lemma_stray_reported(es, ws, leaves, k - 1, j);
        let i = choose|i: int|
            0 <= i < before.len() && (#[trigger] before[i]).class == (if leaves[j].write_temp {
                "crash-residue"@
            } else {
                "missing-remote"@
            }) && before[i].path == ".docli/markers/"@ + id_text(ws) + "/"@ + leaves[j].name@;
        assert(all[i] == before[i]);
    } else {
        let own = stray_rows(es, ws, leaves[j]);
        assert(all[before.len() as int] == own[0]);
    }
}

/// A file among the markers of the workspace that no attachment of the server goes by is reported, at
/// its place: as the residue of an interrupted write where it is named so, and as a stray elsewhere.
pub proof fn a_stray_marker_is_reported(
    dir: Seq<char>,
    state: &WsState,
    state_found: bool,
    progress: Progress,
    ws: u128,
    scope: Option<Seq<char>>,
    rules: FsRules,
    tree: Map<u128, ServerVal>,
    controls: Seq<Seq<char>>,
    f: Findings,
    j: int,
)
    requires
        0 <= j < f.leaves@.len(),
        forall|e: int|
            0 <= e < expected_of(state, ws, scope, rules, tree).len() ==> (#[trigger] expected_of(
                state,
                ws,
                scope,
                rules,
                tree,
            )[e]).spot.path != ".docli/markers/"@ + id_text(ws) + "/"@ + f.leaves@[j].name@,
    ensures
        reports(
            account(dir, state, state_found, progress, ws, scope, rules, tree, controls, f),
            if f.leaves@[j].write_temp {
                "crash-residue"@
            } else {
                "missing-remote"@
            },
            ".docli/markers/"@ + id_text(ws) + "/"@ + f.leaves@[j].name@,
        ),
{
    let nodes = state.nodes_v();
    let es = expected_of(state, ws, scope, rules, tree);
    let m = es.len() as int;
    let n = f.leaves@.len() as int;
    let held = holders(nodes, es, m);
    assert forall|e: int| 0 <= e < es.len() implies leaf_of((#[trigger] es[e]).spot.path, ws)
        != Some(f.leaves@[j].name@) by {
        if leaf_of(es[e].spot.path, ws) == Some(f.leaves@[j].name@) {
            lemma_leaf_spells(es[e].spot.path, ws);
        }
    }
    lemma_stray_reported(es, ws, f.leaves@, n, j);
    let strays = stray_upto(es, ws, f.leaves@, n);
    let class = if f.leaves@[j].write_temp {
        "crash-residue"@
    } else {
        "missing-remote"@
    };
    let path = ".docli/markers/"@ + id_text(ws) + "/"@ + f.leaves@[j].name@;
    let i = choose|i: int|
        0 <= i < strays.len() && (#[trigger] strays[i]).class == class && strays[i].path == path;
    let rows = account(dir, state, state_found, progress, ws, scope, rules, tree, controls, f);
    let a = opening_rows(dir, state_found, progress) + park_rows(state.parks_v()) + faults_upto(
        nodes,
        tree,
        es,
        f.probes@,
        m,
    ) + held.rows + disk_upto(f.disk@, held.by_fold.dom(), controls, f.disk@.len() as int);
    assert(rows[a.len() + i] == strays[i]);
}

} // verus!
