//! What a page does to disk and state, stated over what is there and what is delivered.
//!
//! A write never touches what is not the mirror's own, a deletion takes what a node left behind and
//! nothing that a node still has, directories go leaf first, and what is remembered of a delivery is
//! what the server delivered.

use vstd::prelude::*;

use crate::apply::claimed;
use crate::apply::claims;
use crate::apply::coherent;
use crate::apply::index_of;
use crate::apply::leaf_of;
use crate::apply::node_at;
use crate::apply::page_of;
use crate::apply::plan_of;
use crate::apply::released_opt;
use crate::apply::the_index_holds_what_live_nodes_materialize;
use crate::apply::Claims;
use crate::apply::DispVal;
use crate::course::a_finished_page_keeps_to_its_plan;
use crate::course::distinct_ids;
use crate::course::on_course;
use crate::course::Start;
use crate::digest::hex_of;
use crate::digest::sha256_of;
use crate::ids::id_text;
use crate::ids::parsed_id;
use crate::localpath::FsRules;
use crate::outcome::a_delivery_is_written_as_the_server_has_it;
use crate::outcome::lies_at;
use crate::page::deepest_first;
use crate::page::delete_decided;
use crate::page::delivery_begun;
use crate::page::depth_of;
use crate::page::file_step;
use crate::page::folder_step;
use crate::page::has_moved;
use crate::page::node_of;
use crate::page::owned_folds;
use crate::page::owns;
use crate::page::place_of;
use crate::page::pruned;
use crate::page::put_step;
use crate::page::removal_of;
use crate::page::removals_of;
use crate::page::sorted_dirs_go_leaf_first;
use crate::page::stale_among;
use crate::page::Action;
use crate::page::OutcomeVal;
use crate::page::PageRun;
use crate::page::Phase;
use crate::page::PlaceVal;
use crate::page::PutVal;
use crate::page::RemovalVal;
use crate::page::Seen;
use crate::plan::planned;
use crate::state::lemma_roll_exists;
use crate::state::roll;
use crate::state::NodeVal;
use crate::state::SpotVal;
use crate::state::TrackedKind;
use crate::text::begins;
use crate::text::has_sub;
use crate::text::occurs_at;

verus! {

/// What a stranger put at the place of a file stays: a file of another content, and a directory, is
/// left alone and the delivery held back with its place named; only a file of the very content is
/// taken over. What is the mirror's own is written anew, whatever it holds, and where nothing is the
/// file is written. A directory is never replaced.
pub proof fn a_file_is_written_only_over_what_is_ours(owned: bool, place: Seq<char>, seen: Seen)
    ensures
        seen is Missing ==> file_step(owned, place, seen) is Write,
        seen is File && owned ==> file_step(owned, place, seen) is Overwrite,
        seen is File && !owned && seen->same ==> file_step(owned, place, seen) == PutVal::Settled(
            OutcomeVal::Adopted,
        ),
        seen is File && !owned && !seen->same ==> (file_step(owned, place, seen)
            matches PutVal::Settled(OutcomeVal::Parked(why)) && has_sub(why, place)),
        seen is Directory && owned ==> file_step(owned, place, seen) == PutVal::Settled(
            OutcomeVal::InTheWay,
        ),
        seen is Directory && !owned ==> (file_step(owned, place, seen) matches PutVal::Settled(
            OutcomeVal::Parked(why),
        ) && has_sub(why, place)),
        seen matches Seen::Blocked(e) ==> (file_step(owned, place, seen) matches PutVal::Settled(
            OutcomeVal::Parked(why),
        ) && has_sub(why, place) && has_sub(why, e@)),
{
    match file_step(owned, place, seen) {
        PutVal::Settled(OutcomeVal::Parked(why)) => {
            match seen {
                Seen::Blocked(e) => {
                    let a = "cannot create the parent directory for "@;
                    lemma_part(a, place, " ("@ + e@
                        + ") — run `docli sync --full` once the blocking file is gone"@, why);
                    lemma_part(
                        a + place + " ("@,
                        e@,
                        ") — run `docli sync --full` once the blocking file is gone"@,
                        why,
                    );
                },
                Seen::Directory => {
                    lemma_part(
                        "an untracked directory occupies "@,
                        place,
                        " — remove it and run `docli sync --full`"@,
                        why,
                    );
                },
                _ => {
                    lemma_part(
                        "a divergent untracked file occupies "@,
                        place,
                        " — remove it and run `docli sync --full`"@,
                        why,
                    );
                },
            }
        },
        _ => {},
    }
}

proof fn lemma_part(a: Seq<char>, b: Seq<char>, c: Seq<char>, s: Seq<char>)
    requires
        s =~= a + b + c,
    ensures
        has_sub(s, b),
{
    assert(s.subrange(a.len() as int, (a.len() + b.len()) as int) =~= b);
    assert(occurs_at(s, b, a.len() as int));
}

/// The directory of a folder is made, and made again where it is there; a file in its place is never
/// replaced: one of the mirror's own makes way later, a stranger's holds the folder back.
pub proof fn a_folder_never_replaces_a_file(owned: bool, place: Seq<char>, seen: Seen)
    ensures
        seen is Missing || seen is Directory ==> folder_step(owned, place, seen) is MakeDir,
        seen is File && owned ==> folder_step(owned, place, seen) == PutVal::Settled(
            OutcomeVal::InTheWay,
        ),
        seen is File && !owned ==> (folder_step(owned, place, seen) matches PutVal::Settled(
            OutcomeVal::Parked(why),
        ) && has_sub(why, place)),
        seen matches Seen::Blocked(e) ==> (folder_step(owned, place, seen) matches PutVal::Settled(
            OutcomeVal::Parked(why),
        ) && has_sub(why, place) && has_sub(why, e@)),
{
    match folder_step(owned, place, seen) {
        PutVal::Settled(OutcomeVal::Parked(why)) => {
            match seen {
                Seen::Blocked(e) => {
                    let a = "cannot create the directory "@;
                    lemma_part(a, place, " ("@ + e@
                        + ") — run `docli sync --full` once the blocking file is gone"@, why);
                    lemma_part(
                        a + place + " ("@,
                        e@,
                        ") — run `docli sync --full` once the blocking file is gone"@,
                        why,
                    );
                },
                _ => {
                    let a = "an untracked file occupies the folder path "@;
                    let z = why.skip((a.len() + place.len()) as int);
                    lemma_part(a, place, z, why);
                },
            }
        },
        _ => {},
    }
}

/// A delivery goes to its own path in the mount, an attachment's marker to its own: the place is the
/// mirror's where the state before the page, or the page so far, put something there, and only
/// there.
pub proof fn a_put_goes_to_its_own_place(
    kind: TrackedKind,
    local: SpotVal,
    text: Seq<char>,
    marker: Option<SpotVal>,
    idx: Claims,
    owned: Set<Seq<char>>,
    ws: u128,
    id: u128,
    seen: Seen,
)
    ensures
        ({
            let put = DispVal::Put { kind, local, text, marker };
            let ours = idx.dom().contains(local.fold) || owned.contains(local.fold);
            &&& kind != TrackedKind::Attachment ==> place_of(put, ws) == Some(
                PlaceVal::Mount(local.path),
            )
            &&& kind == TrackedKind::Note ==> put_step(put, idx, owned, seen) == Some(
                file_step(ours, local.path, seen),
            )
            &&& kind == TrackedKind::Folder ==> put_step(put, idx, owned, seen) == Some(
                folder_step(ours, local.path, seen),
            )
            &&& kind == TrackedKind::Attachment && (marker matches Some(m)
                && !".docli/markers/"@.is_prefix_of(m.path)) ==> place_of(put, ws) == Some(
                PlaceVal::Mount(marker->0.path),
            ) && put_step(put, idx, owned, seen) == Some(
                file_step(
                    idx.dom().contains(marker->0.fold) || owned.contains(marker->0.fold),
                    marker->0.path,
                    seen,
                ),
            )
        }),
{
    if let Some(m) = marker {
        if begins(m.path, ".docli/markers/"@) {
            assert(m.path.take(".docli/markers/"@.len() as int) =~= ".docli/markers/"@);
            assert(".docli/markers/"@.is_prefix_of(m.path));
        }
    }
}

/// A node has moved where its file is another, and an attachment also where its marker is.
pub proof fn a_move_is_a_change_of_file(prev: NodeVal, local: SpotVal, marker: Option<SpotVal>)
    ensures
        prev.local.fold != local.fold ==> has_moved(prev, local, marker),
        prev.local.fold == local.fold && prev.kind != TrackedKind::Attachment ==> !has_moved(
            prev,
            local,
            marker,
        ),
        prev.local.fold == local.fold && prev.kind == TrackedKind::Attachment && prev.marker is Some
            && marker is Some ==> (has_moved(prev, local, marker) <==> prev.marker->0.fold
            != marker->0.fold),
        prev.local.fold == local.fold && prev.kind == TrackedKind::Attachment && (prev.marker
            is Some <==> marker is None) ==> has_moved(prev, local, marker),
{
}

/// What is left of a node's former materialization goes: its directory, its file or its marker,
/// where no node has claimed the place since, and nothing else ever.
pub proof fn what_nobody_claims_is_deleted(idx: Claims, ws: u128, prev: NodeVal)
    ensures
        prev.kind == TrackedKind::Note && !idx.dom().contains(prev.local.fold)
            && prev.local.path.len() > 0 ==> removal_of(idx, ws, prev) == RemovalVal::File(
            prev.local.path,
        ),
        prev.kind == TrackedKind::Folder && !idx.dom().contains(prev.local.fold)
            && prev.local.path.len() > 0 ==> removal_of(idx, ws, prev) == RemovalVal::Dir(
            prev.local.path,
        ),
        prev.kind == TrackedKind::Attachment && prev.marker is Some && !idx.dom().contains(
            prev.marker->0.fold,
        ) && prev.marker->0.path.len() > 0 && !".docli/"@.is_prefix_of(prev.marker->0.path)
            ==> removal_of(idx, ws, prev) == RemovalVal::File(prev.marker->0.path),
        prev.kind != TrackedKind::Attachment && (idx.dom().contains(prev.local.fold)
            || prev.local.path.len() == 0) ==> removal_of(idx, ws, prev) is Keep,
        prev.kind == TrackedKind::Attachment && (prev.marker is None || idx.dom().contains(
            prev.marker->0.fold,
        )) ==> removal_of(idx, ws, prev) is Keep,
        removal_of(idx, ws, prev) matches RemovalVal::Dir(p) ==> prev.kind == TrackedKind::Folder
            && p == prev.local.path && p.len() > 0,
        removal_of(idx, ws, prev) matches RemovalVal::File(p) ==> p.len() > 0 && (prev.kind
            == TrackedKind::Note && p == prev.local.path || prev.kind == TrackedKind::Attachment
            && prev.marker is Some && p == prev.marker->0.path && !".docli/"@.is_prefix_of(p)),
        removal_of(idx, ws, prev) matches RemovalVal::Marker(leaf) ==> prev.kind
            == TrackedKind::Attachment && prev.marker is Some && prev.marker->0.path
            == ".docli/markers/"@ + id_text(ws) + "/"@ + leaf,
{
    if let Some(m) = prev.marker {
        let pre = ".docli/"@;
        if begins(m.path, pre) {
            assert(m.path.take(pre.len() as int) =~= pre);
            assert(pre.is_prefix_of(m.path));
            if leaf_of(m.path, ws) is Some {
                lemma_leaf_spells(m.path, ws);
            }
        } else {
            if pre.is_prefix_of(m.path) {
                assert(m.path.subrange(0, pre.len() as int) =~= pre);
            }
        }
    }
}

/// A path with a leaf is that of a relocated marker of this workspace: the workspace's own directory
/// and the leaf, which is the text of an id and `.docli`.
pub proof fn lemma_leaf_spells(path: Seq<char>, ws: u128)
    requires
        leaf_of(path, ws) is Some,
    ensures
        path == ".docli/markers/"@ + id_text(ws) + "/"@ + leaf_of(path, ws)->0,
        exists|id: u128| leaf_of(path, ws)->0 == #[trigger] id_text(id) + ".docli"@,
{
    let p = ".docli/markers/"@;
    let w = id_text(ws);
    let a = path.subrange(p.len() as int, path.len() as int);
    assert(path =~= p + a);
    let b = a.subrange(w.len() as int, a.len() as int);
    assert(a =~= w + b);
    let leaf = b.subrange("/"@.len() as int, b.len() as int);
    assert(b =~= "/"@ + leaf);
    assert(path =~= p + w + "/"@ + leaf);
    let stem = leaf.subrange(0, leaf.len() - ".docli"@.len());
    assert(leaf =~= stem + ".docli"@);
    let id = parsed_id(stem)->0;
    assert(id_text(id) == stem);
}

proof fn lemma_depth_of_cat(a: Seq<char>, b: Seq<char>)
    ensures
        depth_of(a + b) == depth_of(a) + depth_of(b),
    decreases b.len(),
{
    if b.len() == 0 {
        assert(a + b =~= a);
    } else {
        lemma_depth_of_cat(a, b.drop_last());
        assert((a + b).drop_last() =~= a + b.drop_last());
    }
}

/// Directories are removed leaf first: none is tried before one that lies inside it, and none is
/// left out or tried twice.
pub proof fn a_directory_goes_after_what_lies_in_it(dirs: Seq<Seq<char>>, i: int, j: int)
    requires
        0 <= i < j < deepest_first(dirs).len(),
    ensures
        !(deepest_first(dirs)[i] + "/"@).is_prefix_of(deepest_first(dirs)[j]),
        deepest_first(dirs).to_multiset() == dirs.to_multiset(),
{
    reveal_strlit("/");
    sorted_dirs_go_leaf_first(dirs);
    let s = deepest_first(dirs);
    let pre = s[i] + "/"@;
    if pre.is_prefix_of(s[j]) {
        let rest = s[j].subrange(pre.len() as int, s[j].len() as int);
        assert(s[j].subrange(0, pre.len() as int) =~= pre);
        assert(s[j] =~= pre + rest);
        lemma_depth_of_cat(pre, rest);
        lemma_depth_of_cat(s[i], "/"@);
        assert("/"@.drop_last() =~= Seq::<char>::empty());
        assert(depth_of(Seq::<char>::empty()) == 0);
        assert(depth_of("/"@) == 1);
        assert(depth_of(s[i]) >= depth_of(s[j]));
    }
}

/// The mirror owns the place of every tracked note and folder and of every marker that stands in the
/// mount, and no other.
pub proof fn the_mirror_owns_what_its_nodes_put_there(nodes: Map<u128, NodeVal>, fold: Seq<char>)
    ensures
        forall|id: u128| #[trigger]
            nodes.dom().contains(id) && nodes[id].kind != TrackedKind::Attachment
                && nodes[id].local.fold == fold ==> owned_folds(nodes).contains(fold),
        forall|id: u128| #[trigger]
            nodes.dom().contains(id) && nodes[id].marker is Some && nodes[id].marker->0.fold == fold
                && !".docli/"@.is_prefix_of(nodes[id].marker->0.path) ==> owned_folds(
                nodes,
            ).contains(fold),
        owned_folds(nodes).contains(fold) ==> exists|id: u128| #[trigger]
            nodes.dom().contains(id) && (nodes[id].kind != TrackedKind::Attachment
                && nodes[id].local.fold == fold || nodes[id].marker is Some
                && nodes[id].marker->0.fold == fold && !".docli/"@.is_prefix_of(
                nodes[id].marker->0.path,
            )),
{
    let pre = ".docli/"@;
    assert forall|id: u128| #[trigger] nodes.dom().contains(id) && nodes[id].marker is Some implies (
    begins(nodes[id].marker->0.path, pre) <==> pre.is_prefix_of(nodes[id].marker->0.path)) by {
        let p = nodes[id].marker->0.path;
        if p.len() >= pre.len() {
            assert(p.take(pre.len() as int) =~= p.subrange(0, pre.len() as int));
        }
    }
    assert forall|id: u128| #[trigger]
        nodes.dom().contains(id) && nodes[id].kind != TrackedKind::Attachment
            && nodes[id].local.fold == fold implies owned_folds(nodes).contains(fold) by {
        assert(owns(nodes[id], fold));
    }
    assert forall|id: u128| #[trigger]
        nodes.dom().contains(id) && nodes[id].marker is Some && nodes[id].marker->0.fold == fold
            && !pre.is_prefix_of(nodes[id].marker->0.path) implies owned_folds(nodes).contains(
        fold,
    ) by {
        assert(owns(nodes[id], fold));
    }
}

/// A node that is tracked has its places in the index, those that it had before and has no more are
/// free, and no other entry changes.
pub proof fn tracking_claims_the_places_of_a_node(
    idx: Claims,
    nodes: Map<u128, NodeVal>,
    id: u128,
    n: NodeVal,
    k: Seq<char>,
)
    ensures
        ({
            let after = claimed(released_opt(idx, node_at(nodes, id), id), n, id);
            let own = n.kind != TrackedKind::Attachment && n.local.fold == k || n.marker is Some
                && n.marker->0.fold == k;
            &&& own ==> after.dom().contains(k) && after[k] == id
            &&& !own && idx.dom().contains(k) && idx[k] != id ==> after.dom().contains(k)
                && after[k] == idx[k]
            &&& !own && !idx.dom().contains(k) ==> !after.dom().contains(k)
            &&& !own && nodes.dom().contains(id) && idx.dom().contains(k) && idx[k] == id && (
            nodes[id].local.fold == k || nodes[id].marker is Some && nodes[id].marker->0.fold == k)
                ==> !after.dom().contains(k)
        }),
{
}

/// A node that is tracked no more has no place in the index, and no other entry changes.
pub proof fn untracking_frees_the_places_of_a_node(
    idx: Claims,
    nodes: Map<u128, NodeVal>,
    id: u128,
    k: Seq<char>,
)
    requires
        coherent(idx, nodes),
    ensures
        ({
            let after = released_opt(idx, node_at(nodes, id), id);
            &&& idx.dom().contains(k) && idx[k] != id ==> after.dom().contains(k) && after[k]
                == idx[k]
            &&& idx.dom().contains(k) && idx[k] == id ==> !after.dom().contains(k)
            &&& !idx.dom().contains(k) ==> !after.dom().contains(k)
        }),
{
}

/// What a page remembers of a delivery that it materialized is what the server delivered: the path
/// on the server and the revision, the place in the mount, and of a note the digest of the server's
/// body.
pub proof fn what_is_remembered_is_what_was_delivered(
    run: PageRun,
    s: Start,
    idx: Claims,
    scope: Option<Seq<char>>,
    controls: Seq<Seq<char>>,
    rules: FsRules,
    k: int,
)
    requires
        on_course(run, s),
        run.phase == Phase::Finished,
        run.page@.len() == run.plan@.len(),
        plan_of(run.plan@) == planned(
            s.nodes,
            s.ledger,
            s.parks,
            idx,
            run.ws,
            scope,
            controls,
            rules,
            page_of(run.page@),
        ),
        distinct_ids(page_of(run.page@)),
        0 <= k < run.page@.len(),
        run.plan@[k].view() is Put,
        run.state.nodes_v().dom().contains(run.page@[k].id),
    ensures
        ({
            let d = run.page@[k];
            let n = run.state.nodes_v()[d.id];
            &&& n.server_path == d.path@
            &&& n.rev == d.rev
            &&& n.local.fold == d.fold@
            &&& exists|rel: Seq<char>|
                #![trigger lies_at(d.path@, scope, rel)]
                lies_at(d.path@, scope, rel) && n.local.path == (if rules.win_names {
                    d.encoded@
                } else {
                    rel
                })
            &&& n.kind == TrackedKind::Note <==> d.kind@ == "file"@
            &&& n.kind == TrackedKind::Folder <==> d.kind@ == "folder"@
            &&& n.kind == TrackedKind::Attachment <==> d.kind@ == "attachment"@
            &&& n.marker is Some <==> d.kind@ == "attachment"@
            &&& d.kind@ == "file"@ && d.body is Some ==> n.content_sha256 == hex_of(
                sha256_of(vstd::utf8::encode_utf8(d.body->0@)),
            )
            &&& d.kind@ == "file"@ && d.body is None ==> n.content_sha256 == hex_of(
                sha256_of(vstd::utf8::encode_utf8(Seq::empty())),
            )
            &&& d.kind@ == "attachment"@ ==> n.content_sha256 == hex_of(
                sha256_of(vstd::utf8::encode_utf8(d.marker_text@)),
            )
            &&& !run.state.parks_v().dom().contains(d.id)
        }),
{
    a_finished_page_keeps_to_its_plan(run, s, k);
    let page = page_of(run.page@);
    assert(page[k] == run.page@[k].view());
    assert(plan_of(run.plan@)[k] == run.plan@[k].view());
    a_delivery_is_written_as_the_server_has_it(
        s.nodes,
        s.ledger,
        s.parks,
        idx,
        run.ws,
        scope,
        controls,
        rules,
        page,
        k,
    );
    let put = run.plan@[k].view();
    let n = run.state.nodes_v()[run.page@[k].id];
    assert(n == node_of(page[k], put));
    if page[k].body is None && page[k].kind == "file"@ {
        assert(put->text =~= Seq::empty());
    }
}

proof fn lemma_stale(ids: Seq<u128>, delivered: Set<u128>)
    ensures
        forall|id: u128| #[trigger]
            stale_among(ids, delivered).contains(id) <==> ids.contains(id) && !delivered.contains(
                id,
            ),
    decreases ids.len(),
{
    if ids.len() > 0 {
        let rest = ids.drop_last();
        lemma_stale(rest, delivered);
        let before = stale_among(rest, delivered);
        let all = stale_among(ids, delivered);
        assert forall|id: u128| #[trigger] all.contains(id) <==> ids.contains(id)
            && !delivered.contains(id) by {
            if all.contains(id) {
                let q = choose|q: int| 0 <= q < all.len() && all[q] == id;
                if q < before.len() {
                    assert(before[q] == id);
                    assert(before.contains(id));
                    let z = choose|z: int| 0 <= z < rest.len() && rest[z] == id;
                    assert(ids[z] == id);
                } else {
                    assert(ids[ids.len() - 1] == id);
                }
            }
            if ids.contains(id) && !delivered.contains(id) {
                let z = choose|z: int| 0 <= z < ids.len() && ids[z] == id;
                if z < rest.len() {
                    assert(rest[z] == id);
                    assert(rest.contains(id));
                    assert(before.contains(id));
                    let q = choose|q: int| 0 <= q < before.len() && before[q] == id;
                    assert(all[q] == id);
                } else {
                    assert(all[before.len() as int] == id);
                }
            }
        }
    }
}

proof fn lemma_pruned(
    idx: Claims,
    nodes: Map<u128, NodeVal>,
    ws: u128,
    stale: Seq<u128>,
    id: u128,
    spot: Seq<char>,
)
    requires
        coherent(idx, nodes),
        stale.contains(id),
        forall|s: u128| #[trigger] stale.contains(s) ==> nodes.dom().contains(s),
        forall|o: u128| #[trigger]
            nodes.dom().contains(o) && o != id ==> !claims(nodes[o], spot),
    ensures
        exists|left: Claims|
            !(#[trigger] left.dom().contains(spot)) && pruned(idx, nodes, ws, stale).1.contains(
                removal_of(left, ws, nodes[id]),
            ),
    decreases stale.len(),
{
    let rest = stale.drop_last();
    let last = stale.last();
    assert(stale[stale.len() - 1] == last);
    assert(stale.contains(last));
    lemma_pruned_coherent(idx, nodes, ws, rest);
    let before = pruned(idx, nodes, ws, rest);
    let left = released_opt(before.0, Some(nodes[last]), last);
    let all = pruned(idx, nodes, ws, stale);
    if last == id {
        assert(!left.dom().contains(spot)) by {
            if left.dom().contains(spot) {
                assert(before.0.dom().contains(spot) && left[spot] == before.0[spot]);
                assert(nodes.dom().contains(left[spot]));
                assert(claims(nodes[left[spot]], spot));
            }
        }
        assert(all.1[before.1.len() as int] == removal_of(left, ws, nodes[id]));
    } else {
        let z = choose|z: int| 0 <= z < stale.len() && stale[z] == id;
        assert(rest[z] == id);
        assert forall|s: u128| #[trigger] rest.contains(s) implies nodes.dom().contains(s) by {
            let q = choose|q: int| 0 <= q < rest.len() && rest[q] == s;
            assert(stale[q] == s);
            assert(stale.contains(s));
        }
        lemma_pruned(idx, nodes, ws, rest, id, spot);
        let l = choose|l: Claims|
            !(#[trigger] l.dom().contains(spot)) && before.1.contains(removal_of(l, ws, nodes[id]));
        let q = choose|q: int|
            0 <= q < before.1.len() && before.1[q] == removal_of(l, ws, nodes[id]);
        assert(all.1[q] == before.1[q]);
        assert(!l.dom().contains(spot));
    }
}

proof fn lemma_pruned_coherent(
    idx: Claims,
    nodes: Map<u128, NodeVal>,
    ws: u128,
    stale: Seq<u128>,
)
    requires
        coherent(idx, nodes),
    ensures
        coherent(pruned(idx, nodes, ws, stale).0, nodes),
    decreases stale.len(),
{
    if stale.len() > 0 {
        lemma_pruned_coherent(idx, nodes, ws, stale.drop_last());
    }
}

/// After a replay from the beginning, the file of every note and the directory of every folder that
/// was not delivered is to be deleted, where no other tracked node has the place.
pub proof fn what_a_replay_did_not_deliver_is_deleted(
    nodes: Map<u128, NodeVal>,
    ledger: Set<u128>,
    ws: u128,
    delivered: Set<u128>,
    id: u128,
)
    requires
        nodes.dom().finite(),
        nodes.dom().contains(id),
        !delivered.contains(id),
        nodes[id].kind != TrackedKind::Attachment,
        nodes[id].local.path.len() > 0,
        forall|o: u128| #[trigger]
            nodes.dom().contains(o) && o != id ==> (nodes[o].kind != TrackedKind::Attachment
                ==> nodes[o].local.fold != nodes[id].local.fold) && (nodes[o].marker is Some
                ==> nodes[o].marker->0.fold != nodes[id].local.fold),
    ensures
        pruned(
            index_of(nodes, ledger),
            nodes,
            ws,
            stale_among(roll(nodes.dom()), delivered),
        ).1.contains(
            if nodes[id].kind == TrackedKind::Note {
                RemovalVal::File(nodes[id].local.path)
            } else {
                RemovalVal::Dir(nodes[id].local.path)
            },
        ),
{
    the_index_holds_what_live_nodes_materialize(nodes, ledger);
    lemma_roll_exists(nodes.dom());
    let ids = roll(nodes.dom());
    let stale = stale_among(ids, delivered);
    lemma_stale(ids, delivered);
    assert(ids.contains(id));
    assert(stale.contains(id));
    assert forall|s: u128| #[trigger] stale.contains(s) implies nodes.dom().contains(s) by {
        assert(ids.contains(s));
    }
    let spot = nodes[id].local.fold;
    assert forall|o: u128| #[trigger] nodes.dom().contains(o) && o != id implies !claims(
        nodes[o],
        spot,
    ) by {}
    lemma_pruned(index_of(nodes, ledger), nodes, ws, stale, id, spot);
    let left = choose|left: Claims|
        !(#[trigger] left.dom().contains(spot)) && pruned(
            index_of(nodes, ledger),
            nodes,
            ws,
            stale,
        ).1.contains(removal_of(left, ws, nodes[id]));
    what_nobody_claims_is_deleted(left, ws, nodes[id]);
}

proof fn lemma_pruned_only(
    idx: Claims,
    nodes: Map<u128, NodeVal>,
    ws: u128,
    stale: Seq<u128>,
    q: int,
)
    requires
        0 <= q < pruned(idx, nodes, ws, stale).1.len(),
    ensures
        exists|id: u128, left: Claims|
            #![trigger removal_of(left, ws, nodes[id])]
            stale.contains(id) && nodes.dom().contains(id) && pruned(idx, nodes, ws, stale).1[q]
                == removal_of(left, ws, nodes[id]),
    decreases stale.len(),
{
    let rest = stale.drop_last();
    let before = pruned(idx, nodes, ws, rest);
    if q < before.1.len() {
        lemma_pruned_only(idx, nodes, ws, rest, q);
        let (id, left) = choose|id: u128, left: Claims|
            #![trigger removal_of(left, ws, nodes[id])]
            rest.contains(id) && nodes.dom().contains(id) && before.1[q] == removal_of(
                left,
                ws,
                nodes[id],
            );
        let z = choose|z: int| 0 <= z < rest.len() && rest[z] == id;
        assert(stale[z] == id);
        assert(pruned(idx, nodes, ws, stale).1[q] == removal_of(left, ws, nodes[id]));
    } else {
        assert(stale[stale.len() - 1] == stale.last());
        let left = released_opt(before.0, Some(nodes[stale.last()]), stale.last());
        assert(pruned(idx, nodes, ws, stale).1[q] == removal_of(left, ws, nodes[stale.last()]));
    }
}

/// Nothing but what was not delivered is deleted after a replay: a file is that of such a note or of
/// such an attachment's marker, and a directory that of such a folder.
pub proof fn only_what_a_replay_did_not_deliver_is_deleted(
    nodes: Map<u128, NodeVal>,
    ledger: Set<u128>,
    ws: u128,
    delivered: Set<u128>,
    q: int,
)
    requires
        nodes.dom().finite(),
        0 <= q < pruned(
            index_of(nodes, ledger),
            nodes,
            ws,
            stale_among(roll(nodes.dom()), delivered),
        ).1.len(),
    ensures
        ({
            let gone = pruned(
                index_of(nodes, ledger),
                nodes,
                ws,
                stale_among(roll(nodes.dom()), delivered),
            ).1[q];
            exists|id: u128|
                #![trigger nodes[id]]
                nodes.dom().contains(id) && !delivered.contains(id) && (gone is Dir
                    ==> nodes[id].kind == TrackedKind::Folder && gone->Dir_0
                    == nodes[id].local.path) && (gone is File ==> (nodes[id].kind
                    == TrackedKind::Note && gone->File_0 == nodes[id].local.path || nodes[id].kind
                    == TrackedKind::Attachment && nodes[id].marker is Some && gone->File_0
                    == nodes[id].marker->0.path)) && (gone is Marker ==> nodes[id].kind
                    == TrackedKind::Attachment && nodes[id].marker is Some)
        }),
{
    lemma_roll_exists(nodes.dom());
    let ids = roll(nodes.dom());
    let stale = stale_among(ids, delivered);
    lemma_stale(ids, delivered);
    lemma_pruned_only(index_of(nodes, ledger), nodes, ws, stale, q);
    let gone = pruned(index_of(nodes, ledger), nodes, ws, stale).1[q];
    let (id, left) = choose|id: u128, left: Claims|
        #![trigger removal_of(left, ws, nodes[id])]
        stale.contains(id) && nodes.dom().contains(id) && gone == removal_of(left, ws, nodes[id]);
    what_nobody_claims_is_deleted(left, ws, nodes[id]);
    assert(stale.contains(id));
}

/// A delivery that is not to be written is settled as it is begun: one that is taken away, or held
/// back, is forgotten, and what the mirror had of it is put down for deletion; one that is held back
/// is remembered under the reason and the path on the server; and one of which only the ledger takes
/// note leaves the nodes alone. The counters say how many were taken away and how many held back.
pub proof fn what_is_not_written_is_settled_at_once(o: PageRun, n: PageRun, a: Action)
    requires
        delivery_begun(o, n, a),
        o.at < o.page@.len(),
        o.page@.len() == o.plan@.len(),
        o.stats.removed < usize::MAX,
        o.stats.parked < usize::MAX,
    ensures
        ({
            let id = o.page@[o.at as int].id;
            let had = o.state.nodes_v().dom().contains(id);
            let disp = o.plan@[o.at as int].view();
            let gone = disp is Remove || disp is Park;
            &&& a is Put <==> disp is Put
            &&& n.at == o.at + (if disp is Put {
                0int
            } else {
                1int
            })
            &&& gone ==> !n.state.nodes_v().dom().contains(id)
            &&& !gone ==> n.state.nodes_v() == o.state.nodes_v()
            &&& forall|other: u128|
                other != id && o.state.nodes_v().dom().contains(other)
                    ==> n.state.nodes_v().dom().contains(other)
                    && #[trigger] n.state.nodes_v()[other] == o.state.nodes_v()[other]
            &&& gone && had ==> removals_of(n.removals@) == removals_of(o.removals@).push(
                (id, o.state.nodes_v()[id]),
            )
            &&& !gone || !had ==> removals_of(n.removals@) == removals_of(o.removals@)
            &&& disp matches DispVal::Park { class, reason } ==> n.state.parks_v().dom().contains(id)
                && n.state.parks_v()[id].class == class && n.state.parks_v()[id].reason == reason
                && n.state.parks_v()[id].server_path == o.page@[o.at as int].path@
            &&& disp is Remove || disp is LedgerOnly ==> !n.state.parks_v().dom().contains(id)
            &&& n.stats.removed == o.stats.removed + (if disp is Remove && had {
                1int
            } else {
                0int
            })
            &&& n.stats.parked == o.stats.parked + (if disp is Park {
                1int
            } else {
                0int
            })
            &&& n.stats.written == o.stats.written && n.stats.adopted == o.stats.adopted
            &&& n.state.ledger@.contains(id) <==> !o.page@[o.at as int].trashed
        }),
{
}

/// A former file is handed out for deletion where no node claims it any more, a former directory is
/// kept for later, and what a node still claims is passed over.
pub proof fn only_what_nobody_claims_is_handed_out(o: PageRun, n: PageRun, a: Action)
    requires
        delete_decided(o, n, a),
        o.at < o.removals@.len(),
        o.removals@[o.at as int].1.view().local.path.len() > 0,
    ensures
        ({
            let prev = o.removals@[o.at as int].1.view();
            let taken = |fold: Seq<char>| o.idx.view().dom().contains(fold);
            &&& prev.kind == TrackedKind::Note && taken(prev.local.fold) ==> a is Pass && n.dirs
                == o.dirs
            &&& prev.kind == TrackedKind::Note && !taken(prev.local.fold) ==> (a matches
                Action::Delete(x) && x.view() == RemovalVal::File(prev.local.path))
            &&& prev.kind == TrackedKind::Folder && taken(prev.local.fold) ==> a is Pass && n.dirs
                == o.dirs
            &&& prev.kind == TrackedKind::Folder && !taken(prev.local.fold) ==> a is Pass
                && crate::text::strs(n.dirs@) == crate::text::strs(o.dirs@).push(prev.local.path)
        }),
{
}

} // verus!
