//! What becomes of the deliveries of a page, stated over the fields of each.
//!
//! A plan is made in two steps, each delivery on its own and then all of them together. What is
//! stated here is of the plan that comes out of both: what a delivery that is written is written
//! as and where, which deliveries are written at all, and what becomes of the others.

use vstd::prelude::*;

use crate::apply::collides;
use crate::apply::first_free;
use crate::apply::Claims;
use crate::apply::DeliveredVal;
use crate::apply::DispVal;
use crate::digest::sha256_of;
use crate::ids::id_text;
use crate::localpath::docli_segment;
use crate::localpath::ends_in_docli;
use crate::localpath::in_scope;
use crate::localpath::is_reserved;
use crate::localpath::oversized;
use crate::localpath::reserved_segment;
use crate::localpath::too_long_in;
use crate::localpath::units_of;
use crate::localpath::utf16_len;
use crate::localpath::FsRules;
use crate::plan::classified_page;
use crate::plan::conflict_of;
use crate::plan::delivers;
use crate::plan::folder_prefix;
use crate::plan::ground_of;
use crate::plan::incumbents_among;
use crate::plan::lemma_verdict_on_put;
use crate::plan::planned;
use crate::plan::prefixes_among;
use crate::plan::prefixes_of;
use crate::plan::rel_of;
use crate::plan::round;
use crate::plan::seeded;
use crate::plan::settle;
use crate::plan::under_any;
use crate::plan::verdicts;
use crate::plan::Conflict;
use crate::plan::Ground;
use crate::plan::Verdicts;
use crate::state::lemma_roll_exists;
use crate::state::roll;
use crate::state::NodeVal;
use crate::state::ParkClass;
use crate::state::ParkVal;
use crate::state::SpotVal;
use crate::state::TrackedKind;
use crate::text::ascii_lower;
use crate::text::begins;
use crate::text::same_ascii;
use crate::text::split_of;
use crate::text::utf8_len;

verus! {

/// The server path is that of something inside a mount, at `rel`: the mount of a whole workspace
/// has everything at its server path, the mount of a folder what lies under the folder.
pub open spec fn lies_at(path: Seq<char>, scope: Option<Seq<char>>, rel: Seq<char>) -> bool {
    rel.len() > 0 && match scope {
        None => path == rel,
        Some(folder) => path == folder + "/"@ + rel,
    }
}

/// Two texts are the same but for the case of ASCII letters.
pub open spec fn alike(a: Seq<char>, b: Seq<char>) -> bool {
    a.len() == b.len() && forall|i: int|
        0 <= i < a.len() ==> ascii_lower(#[trigger] a[i]) == ascii_lower(b[i])
}

/// Some part of the path between slashes is a name that a mirror never grows.
pub open spec fn names_a_control_directory(path: Seq<char>) -> bool {
    exists|i: int|
        0 <= i < split_of(path, '/').len() && (alike(#[trigger] split_of(path, '/')[i], ".git"@)
            || alike(split_of(path, '/')[i], ".obsidian"@) || alike(
            split_of(path, '/')[i],
            ".trash"@,
        ))
}

/// Some part of the path between slashes ends in `.docli`.
pub open spec fn names_a_control_file(path: Seq<char>) -> bool {
    exists|i: int, front: Seq<char>, back: Seq<char>|
        0 <= i < split_of(path, '/').len() && #[trigger] split_of(path, '/')[i] == #[trigger] (front
            + back) && alike(back, ".docli"@)
}

/// Every part of the path between slashes is as short as the filesystem asks: in bytes, or in
/// UTF-16 code units where Windows names rule.
pub open spec fn fits(path: Seq<char>, rules: FsRules) -> bool {
    forall|i: int|
        0 <= i < split_of(path, '/').len() ==> (if rules.win_names {
            utf16_len(#[trigger] split_of(path, '/')[i])
        } else {
            utf8_len(split_of(path, '/')[i])
        }) <= rules.max_component_bytes
}

/// The spelling of a path on this filesystem, from its path in the mount and its encoded one.
pub open spec fn shown_as(rel: Seq<char>, encoded: Seq<char>, rules: FsRules) -> Seq<char> {
    if rules.win_names {
        encoded
    } else {
        rel
    }
}

/// The ids of a page are those of different nodes.
pub open spec fn ids_differ(page: Seq<DeliveredVal>) -> bool {
    forall|i: int, j: int|
        0 <= i < j < page.len() ==> (#[trigger] page[i]).id != (#[trigger] page[j]).id
}

proof fn lemma_alike(a: Seq<char>, b: Seq<char>)
    ensures
        alike(a, b) <==> same_ascii(a, b),
{
}

pub proof fn lemma_reserved(path: Seq<char>)
    ensures
        reserved_segment(path) <==> names_a_control_directory(path),
{
    let parts = split_of(path, '/');
    assert forall|i: int| 0 <= i < parts.len() implies (is_reserved(#[trigger] parts[i]) <==> (
    alike(parts[i], ".git"@) || alike(parts[i], ".obsidian"@) || alike(parts[i], ".trash"@))) by {
        lemma_alike(parts[i], ".git"@);
        lemma_alike(parts[i], ".obsidian"@);
        lemma_alike(parts[i], ".trash"@);
    }
}

pub proof fn lemma_docli(path: Seq<char>)
    ensures
        docli_segment(path) <==> names_a_control_file(path),
{
    reveal_strlit(".docli");
    let parts = split_of(path, '/');
    if docli_segment(path) {
        let i = choose|i: int| 0 <= i < parts.len() && ends_in_docli(#[trigger] parts[i]);
        let n = parts[i].len() as int;
        let front = parts[i].subrange(0, n - 6);
        let back = parts[i].subrange(n - 6, n);
        lemma_alike(back, ".docli"@);
        assert(parts[i] =~= front + back);
    }
    if names_a_control_file(path) {
        let (i, front, back) = choose|i: int, front: Seq<char>, back: Seq<char>|
            0 <= i < parts.len() && #[trigger] parts[i] == #[trigger] (front + back) && alike(
                back,
                ".docli"@,
            );
        let n = parts[i].len() as int;
        lemma_alike(back, ".docli"@);
        assert(parts[i].subrange(n - 6, n) =~= back);
        assert(ends_in_docli(parts[i]));
    }
}

proof fn lemma_fits(parts: Seq<Seq<char>>, rules: FsRules)
    ensures
        too_long_in(parts, rules) is None <==> forall|i: int|
            0 <= i < parts.len() ==> (if rules.win_names {
                utf16_len(#[trigger] parts[i])
            } else {
                utf8_len(parts[i])
            }) <= rules.max_component_bytes,
    decreases parts.len(),
{
    if parts.len() > 0 {
        let rest = parts.drop_first();
        lemma_fits(rest, rules);
        assert forall|i: int| 0 <= i < rest.len() implies #[trigger] rest[i] == parts[i + 1] by {}
        if too_long_in(parts, rules) is None {
            assert forall|i: int| 0 <= i < parts.len() implies (if rules.win_names {
                utf16_len(#[trigger] parts[i])
            } else {
                utf8_len(parts[i])
            }) <= rules.max_component_bytes by {
                if i > 0 {
                    assert(rest[i - 1] == parts[i]);
                }
            }
        }
        if forall|i: int|
            0 <= i < parts.len() ==> (if rules.win_names {
                utf16_len(#[trigger] parts[i])
            } else {
                utf8_len(parts[i])
            }) <= rules.max_component_bytes {
            assert(units_of(parts[0], rules) <= rules.max_component_bytes);
            assert forall|i: int| 0 <= i < rest.len() implies (if rules.win_names {
                utf16_len(#[trigger] rest[i])
            } else {
                utf8_len(rest[i])
            }) <= rules.max_component_bytes by {
                assert(rest[i] == parts[i + 1]);
            }
        }
    }
}

pub proof fn lemma_oversized(path: Seq<char>, rules: FsRules)
    ensures
        oversized(path, rules) is None <==> fits(path, rules),
{
    lemma_fits(split_of(path, '/'), rules);
}

pub proof fn lemma_lies_at(path: Seq<char>, scope: Option<Seq<char>>, rel: Seq<char>)
    ensures
        lies_at(path, scope, rel) <==> in_scope(path, scope) == Some(rel) && rel.len() > 0,
{
    reveal_strlit("/");
    if let Some(folder) = scope {
        let pre = folder + seq!['/'];
        assert(folder + "/"@ =~= pre);
        if path == pre + rel {
            assert(path.subrange(0, pre.len() as int) =~= pre);
            assert(path.subrange(pre.len() as int, path.len() as int) =~= rel);
            assert(path.len() > folder.len());
        }
        if in_scope(path, scope) == Some(rel) && rel.len() > 0 {
            assert(path =~= pre + path.subrange(pre.len() as int, path.len() as int));
        }
    }
}

proof fn lemma_first_free(
    candidates: Seq<SpotVal>,
    idx: Claims,
    controls: Seq<Seq<char>>,
    id: u128,
)
    ensures
        first_free(candidates, idx, controls, id) matches Some(s) ==> exists|k: int|
            0 <= k < candidates.len() && #[trigger] candidates[k] == s && !collides(
                s,
                idx,
                controls,
                id,
            ) && forall|j: int| 0 <= j < k ==> collides(#[trigger] candidates[j], idx, controls, id),
        first_free(candidates, idx, controls, id) is None ==> forall|j: int|
            0 <= j < candidates.len() ==> collides(#[trigger] candidates[j], idx, controls, id),
    decreases candidates.len(),
{
    if candidates.len() > 0 && collides(candidates[0], idx, controls, id) {
        let rest = candidates.drop_first();
        lemma_first_free(rest, idx, controls, id);
        match first_free(rest, idx, controls, id) {
            Some(s) => {
                let k = choose|k: int|
                    0 <= k < rest.len() && #[trigger] rest[k] == s && !collides(
                        s,
                        idx,
                        controls,
                        id,
                    ) && forall|j: int|
                        0 <= j < k ==> collides(#[trigger] rest[j], idx, controls, id);
                assert(candidates[k + 1] == s);
                assert forall|j: int| 0 <= j < k + 1 implies collides(
                    #[trigger] candidates[j],
                    idx,
                    controls,
                    id,
                ) by {
                    if j > 0 {
                        assert(rest[j - 1] == candidates[j]);
                    }
                }
            },
            None => {
                assert forall|j: int| 0 <= j < candidates.len() implies collides(
                    #[trigger] candidates[j],
                    idx,
                    controls,
                    id,
                ) by {
                    if j > 0 {
                        assert(rest[j - 1] == candidates[j]);
                    }
                }
            },
        }
    }
}

/// A delivery is written as the server has it: a note as its body, to the character, or as an
/// empty file where it has none; a folder as a directory; an attachment as the text of its marker.
/// What is written is live, of one of these kinds, and lies in the mount, and goes to the path
/// that mirrors its server path.
pub proof fn a_delivery_is_written_as_the_server_has_it(
    nodes: Map<u128, NodeVal>,
    ledger: Set<u128>,
    parks: Map<u128, ParkVal>,
    idx: Claims,
    ws: u128,
    scope: Option<Seq<char>>,
    controls: Seq<Seq<char>>,
    rules: FsRules,
    page: Seq<DeliveredVal>,
    i: int,
)
    requires
        0 <= i < page.len(),
        planned(nodes, ledger, parks, idx, ws, scope, controls, rules, page)[i] is Put,
    ensures
        ({
            let put = planned(nodes, ledger, parks, idx, ws, scope, controls, rules, page)[i];
            let d = page[i];
            &&& !d.trashed
            &&& d.kind == "file"@ || d.kind == "folder"@ || d.kind == "attachment"@
            &&& put->Put_kind == TrackedKind::Note <==> d.kind == "file"@
            &&& put->Put_kind == TrackedKind::Folder <==> d.kind == "folder"@
            &&& put->Put_kind == TrackedKind::Attachment <==> d.kind == "attachment"@
            &&& put->Put_kind == TrackedKind::Note && d.body is Some ==> put->text == d.body->0
            &&& put->Put_kind == TrackedKind::Note && d.body is None ==> put->text.len() == 0
            &&& put->Put_kind == TrackedKind::Folder ==> put->text.len() == 0
            &&& put->Put_kind == TrackedKind::Attachment ==> put->text == d.marker_text
            &&& put->marker is Some <==> put->Put_kind == TrackedKind::Attachment
            &&& put->local.fold == d.fold
            &&& exists|rel: Seq<char>|
                #![trigger lies_at(d.path, scope, rel)]
                lies_at(d.path, scope, rel) && put->local.path == (if rules.win_names {
                    d.encoded
                } else {
                    rel
                })
            &&& !names_a_control_directory(d.path)
            &&& !names_a_control_file(d.path)
            &&& fits(put->local.path, rules)
            &&& d.kind == "file"@ ==> d.note_named
        }),
{
    let d = page[i];
    reveal_strlit("file");
    reveal_strlit("folder");
    reveal_strlit("attachment");
    assert("file"@.len() == 4 && "folder"@.len() == 6 && "attachment"@.len() == 10);
    let put = planned(nodes, ledger, parks, idx, ws, scope, controls, rules, page)[i];
    let cls = classified_page(nodes, idx, ws, scope, controls, rules, page);
    assert(put == cls[i]);
    lemma_reserved(d.path);
    lemma_docli(d.path);
    let rel = in_scope(d.path, scope)->0;
    lemma_lies_at(d.path, scope, rel);
    lemma_oversized(put->local.path, rules);
    assert(lies_at(d.path, scope, rel));
}

/// The bytes that are written for a note have the digest of the body that the server has.
pub proof fn a_written_note_has_the_digest_of_its_body(
    nodes: Map<u128, NodeVal>,
    ledger: Set<u128>,
    parks: Map<u128, ParkVal>,
    idx: Claims,
    ws: u128,
    scope: Option<Seq<char>>,
    controls: Seq<Seq<char>>,
    rules: FsRules,
    page: Seq<DeliveredVal>,
    i: int,
)
    requires
        0 <= i < page.len(),
        planned(nodes, ledger, parks, idx, ws, scope, controls, rules, page)[i] is Put,
        page[i].kind == "file"@,
    ensures
        ({
            let put = planned(nodes, ledger, parks, idx, ws, scope, controls, rules, page)[i];
            sha256_of(vstd::utf8::encode_utf8(put->text)) == sha256_of(
                vstd::utf8::encode_utf8(
                    match page[i].body {
                        Some(b) => b,
                        None => Seq::empty(),
                    },
                ),
            )
        }),
{
    a_delivery_is_written_as_the_server_has_it(
        nodes,
        ledger,
        parks,
        idx,
        ws,
        scope,
        controls,
        rules,
        page,
        i,
    );
    let put = planned(nodes, ledger, parks, idx, ws, scope, controls, rules, page)[i];
    if page[i].body is None {
        assert(put->text =~= Seq::empty());
    }
}

/// The marker of an attachment goes to the first of its spots that is neither a control file of
/// the mount, in any case of its letters, nor another node's, and outside the mount where none is.
pub proof fn a_marker_goes_to_its_first_free_spot(
    nodes: Map<u128, NodeVal>,
    ledger: Set<u128>,
    parks: Map<u128, ParkVal>,
    idx: Claims,
    ws: u128,
    scope: Option<Seq<char>>,
    controls: Seq<Seq<char>>,
    rules: FsRules,
    page: Seq<DeliveredVal>,
    i: int,
    k: int,
)
    requires
        0 <= i < page.len(),
        planned(nodes, ledger, parks, idx, ws, scope, controls, rules, page)[i] is Put,
        page[i].kind == "attachment"@,
        0 <= k <= page[i].marker_spots.len(),
        forall|j: int|
            0 <= j < k ==> ((exists|c: int|
                0 <= c < controls.len() && alike(
                    #[trigger] controls[c],
                    (#[trigger] page[i].marker_spots[j]).path,
                )) || (idx.dom().contains(page[i].marker_spots[j].fold)
                && idx[page[i].marker_spots[j].fold] != page[i].id)),
        k < page[i].marker_spots.len() ==> (forall|c: int|
            0 <= c < controls.len() ==> !alike(
                #[trigger] controls[c],
                page[i].marker_spots[k].path,
            )) && (idx.dom().contains(page[i].marker_spots[k].fold)
            ==> idx[page[i].marker_spots[k].fold] == page[i].id),
    ensures
        ({
            let put = planned(nodes, ledger, parks, idx, ws, scope, controls, rules, page)[i];
            &&& put->marker is Some
            &&& k < page[i].marker_spots.len() ==> put->marker->0 == page[i].marker_spots[k]
            &&& k == page[i].marker_spots.len() ==> put->marker->0.path == ".docli/markers/"@
                + id_text(ws) + "/"@ + id_text(page[i].id) + ".docli"@ && put->marker->0.fold
                == put->marker->0.path
        }),
{
    let d = page[i];
    a_delivery_is_written_as_the_server_has_it(
        nodes,
        ledger,
        parks,
        idx,
        ws,
        scope,
        controls,
        rules,
        page,
        i,
    );
    let put = planned(nodes, ledger, parks, idx, ws, scope, controls, rules, page)[i];
    let cls = classified_page(nodes, idx, ws, scope, controls, rules, page);
    assert(put == cls[i]);
    let all = d.marker_spots;
    assert forall|j: int| 0 <= j < k implies collides(#[trigger] all[j], idx, controls, d.id) by {
        if exists|c: int| 0 <= c < controls.len() && alike(#[trigger] controls[c], all[j].path) {
            let c = choose|c: int|
                0 <= c < controls.len() && alike(#[trigger] controls[c], all[j].path);
            lemma_alike(controls[c], all[j].path);
        }
    }
    if k < all.len() {
        assert(!collides(all[k], idx, controls, d.id)) by {
            if exists|c: int|
                0 <= c < controls.len() && same_ascii(#[trigger] controls[c], all[k].path) {
                let c = choose|c: int|
                    0 <= c < controls.len() && same_ascii(#[trigger] controls[c], all[k].path);
                lemma_alike(controls[c], all[k].path);
            }
        }
    }
    lemma_first_free(all, idx, controls, d.id);
}

/// A live node of a mirrored kind that lies in the mount, whose path holds no reserved name and
/// fits the filesystem, is written, unless the page as a whole holds it back: what it is written
/// to is then contended or under a folder that is held back.
pub proof fn what_can_be_mirrored_is(
    nodes: Map<u128, NodeVal>,
    ledger: Set<u128>,
    parks: Map<u128, ParkVal>,
    idx: Claims,
    ws: u128,
    scope: Option<Seq<char>>,
    controls: Seq<Seq<char>>,
    rules: FsRules,
    page: Seq<DeliveredVal>,
    i: int,
    rel: Seq<char>,
)
    requires
        0 <= i < page.len(),
        !page[i].trashed,
        page[i].kind == "file"@ || page[i].kind == "folder"@ || page[i].kind == "attachment"@,
        page[i].kind == "file"@ ==> page[i].note_named,
        lies_at(page[i].path, scope, rel),
        !names_a_control_directory(page[i].path),
        !names_a_control_file(page[i].path),
        fits(shown_as(rel, page[i].encoded, rules), rules),
    ensures
        ({
            let cls = classified_page(nodes, idx, ws, scope, controls, rules, page);
            let p = planned(nodes, ledger, parks, idx, ws, scope, controls, rules, page)[i];
            &&& cls[i] is Put
            &&& p is Put || (p is Park && verdicts(
                ground_of(nodes, ledger, parks, scope, page),
                page,
                cls,
            ).dom().contains(page[i].id))
        }),
{
    reveal_strlit("file");
    reveal_strlit("folder");
    reveal_strlit("attachment");
    lemma_reserved(page[i].path);
    lemma_docli(page[i].path);
    lemma_lies_at(page[i].path, scope, rel);
    lemma_oversized(shown_as(rel, page[i].encoded, rules), rules);
}

proof fn lemma_no_verdict(
    nodes: Map<u128, NodeVal>,
    ledger: Set<u128>,
    parks: Map<u128, ParkVal>,
    scope: Option<Seq<char>>,
    page: Seq<DeliveredVal>,
    cls: Seq<DispVal>,
    i: int,
)
    requires
        page.len() == cls.len() <= usize::MAX,
        ids_differ(page),
        0 <= i < page.len(),
        !(cls[i] is Put),
    ensures
        !verdicts(ground_of(nodes, ledger, parks, scope, page), page, cls).dom().contains(
            page[i].id,
        ),
{
    let g = ground_of(nodes, ledger, parks, scope, page);
    if verdicts(g, page, cls).dom().contains(page[i].id) {
        let at = lemma_verdict_on_put(g, page, cls, page[i].id);
        if at < i {
            assert(page[at].id != page[i].id);
        } else if i < at {
            assert(page[i].id != page[at].id);
        }
    }
}

/// What is gone from the server's view of the mount leaves the mirror: a node in the trash, one of
/// another kind, one under a reserved name and one outside the mount is removed where it is
/// tracked, and only noted where it is not.
pub proof fn what_is_not_mirrored_is_removed_or_noted(
    nodes: Map<u128, NodeVal>,
    ledger: Set<u128>,
    parks: Map<u128, ParkVal>,
    idx: Claims,
    ws: u128,
    scope: Option<Seq<char>>,
    controls: Seq<Seq<char>>,
    rules: FsRules,
    page: Seq<DeliveredVal>,
    i: int,
)
    requires
        page.len() <= usize::MAX,
        ids_differ(page),
        0 <= i < page.len(),
        page[i].trashed || !(page[i].kind == "file"@ || page[i].kind == "folder"@ || page[i].kind
            == "attachment"@) || names_a_control_directory(page[i].path) || (!names_a_control_file(
            page[i].path,
        ) && forall|rel: Seq<char>| !#[trigger] lies_at(page[i].path, scope, rel)),
    ensures
        ({
            let p = planned(nodes, ledger, parks, idx, ws, scope, controls, rules, page)[i];
            &&& nodes.dom().contains(page[i].id) ==> p is Remove
            &&& !nodes.dom().contains(page[i].id) ==> p is LedgerOnly
        }),
{
    let d = page[i];
    let cls = classified_page(nodes, idx, ws, scope, controls, rules, page);
    lemma_reserved(d.path);
    lemma_docli(d.path);
    if in_scope(d.path, scope) is Some {
        lemma_lies_at(d.path, scope, in_scope(d.path, scope)->0);
    }
    assert(cls[i] is Remove || cls[i] is LedgerOnly);
    lemma_no_verdict(nodes, ledger, parks, scope, page, cls, i);
}

/// A live node that the mirror cannot hold is held back, and stays so until the server changes it:
/// one under a name of the CLI's own, a note whose name is not a note's, and one with a part of
/// its path that the filesystem does not take.
pub proof fn what_cannot_be_mirrored_is_held_back(
    nodes: Map<u128, NodeVal>,
    ledger: Set<u128>,
    parks: Map<u128, ParkVal>,
    idx: Claims,
    ws: u128,
    scope: Option<Seq<char>>,
    controls: Seq<Seq<char>>,
    rules: FsRules,
    page: Seq<DeliveredVal>,
    i: int,
    rel: Seq<char>,
)
    requires
        page.len() <= usize::MAX,
        ids_differ(page),
        0 <= i < page.len(),
        !page[i].trashed,
        page[i].kind == "file"@ || page[i].kind == "folder"@ || page[i].kind == "attachment"@,
        !names_a_control_directory(page[i].path),
        names_a_control_file(page[i].path) || (lies_at(page[i].path, scope, rel) && ((page[i].kind
            == "file"@ && !page[i].note_named) || !fits(
            shown_as(rel, page[i].encoded, rules),
            rules,
        ))),
    ensures
        ({
            let p = planned(nodes, ledger, parks, idx, ws, scope, controls, rules, page)[i];
            &&& p is Park
            &&& p->class == ParkClass::Lasting
            &&& names_a_control_file(page[i].path) ==> p->reason
                == "the .docli namespace is reserved for CLI control files"@
            &&& !names_a_control_file(page[i].path) && page[i].kind == "file"@
                && !page[i].note_named ==> p->reason == "a note must be named *.md (server name: "@
                + page[i].name + ")"@
        }),
{
    reveal_strlit("file");
    reveal_strlit("folder");
    reveal_strlit("attachment");
    let d = page[i];
    let cls = classified_page(nodes, idx, ws, scope, controls, rules, page);
    lemma_reserved(d.path);
    lemma_docli(d.path);
    lemma_lies_at(d.path, scope, rel);
    lemma_oversized(shown_as(rel, d.encoded, rules), rules);
    assert(cls[i] is Park);
    lemma_no_verdict(nodes, ledger, parks, scope, page, cls, i);
}

/// The server path `path` lies inside the folder at the server path `folder`.
pub open spec fn lies_inside(path: Seq<char>, folder: Seq<char>) -> bool {
    (folder + "/"@).is_prefix_of(path)
}

proof fn lemma_seeded_from(inc: Seq<(SpotVal, u128)>)
    ensures
        forall|k: Seq<char>| #[trigger]
            seeded(inc).0.dom().contains(k) ==> exists|a: int|
                0 <= a < inc.len() && (#[trigger] inc[a]).0.path == k && inc[a].1 == seeded(
                    inc,
                ).0[k],
        forall|k: Seq<char>| #[trigger]
            seeded(inc).1.dom().contains(k) ==> exists|a: int|
                0 <= a < inc.len() && (#[trigger] inc[a]).0.fold == k && inc[a].1 == seeded(
                    inc,
                ).1[k],
    decreases inc.len(),
{
    if inc.len() > 0 {
        let rest = inc.drop_last();
        let n = inc.len() - 1;
        lemma_seeded_from(rest);
        assert forall|k: Seq<char>| #[trigger]
            seeded(inc).0.dom().contains(k) implies exists|a: int|
            0 <= a < inc.len() && (#[trigger] inc[a]).0.path == k && inc[a].1 == seeded(
                inc,
            ).0[k] by {
            if seeded(rest).0.dom().contains(k) {
                let a = choose|a: int|
                    0 <= a < rest.len() && (#[trigger] rest[a]).0.path == k && rest[a].1 == seeded(
                        rest,
                    ).0[k];
                assert(inc[a] == rest[a]);
            } else {
                assert(inc[n].0.path == k);
            }
        }
        assert forall|k: Seq<char>| #[trigger]
            seeded(inc).1.dom().contains(k) implies exists|a: int|
            0 <= a < inc.len() && (#[trigger] inc[a]).0.fold == k && inc[a].1 == seeded(
                inc,
            ).1[k] by {
            if seeded(rest).1.dom().contains(k) {
                let a = choose|a: int|
                    0 <= a < rest.len() && (#[trigger] rest[a]).0.fold == k && rest[a].1 == seeded(
                        rest,
                    ).1[k];
                assert(inc[a] == rest[a]);
            } else {
                assert(inc[n].0.fold == k);
            }
        }
    }
}

/// The two spots are one place: one path, or two spellings of one file.
pub open spec fn one_place(a: SpotVal, b: SpotVal) -> bool {
    a.path == b.path || a.fold == b.fold
}

/// Another node has a claim on the place of the delivery at `at`: one that is materialized, or one
/// that stands before it in the page.
pub open spec fn contended(
    inc: Seq<(SpotVal, u128)>,
    page: Seq<DeliveredVal>,
    plan: Seq<DispVal>,
    at: int,
) -> bool {
    ||| exists|a: int|
        0 <= a < inc.len() && (#[trigger] inc[a]).1 != page[at].id && one_place(
            inc[a].0,
            plan[at]->local,
        )
    ||| exists|j: int|
        0 <= j < at && (#[trigger] page[j]).id != page[at].id && plan[j] is Put && one_place(
            plan[j]->local,
            plan[at]->local,
        )
}

proof fn lemma_round_causes(
    inc: Seq<(SpotVal, u128)>,
    prefixes: Seq<Seq<char>>,
    page: Seq<DeliveredVal>,
    plan: Seq<DispVal>,
    scope: Option<Seq<char>>,
    n: nat,
)
    requires
        n <= page.len() == plan.len() <= usize::MAX,
    ensures
        ({
            let r = round(inc, prefixes, page, plan, scope, n);
            &&& forall|k: Seq<char>| #[trigger]
                r.paths.dom().contains(k) ==> (exists|a: int|
                    0 <= a < inc.len() && (#[trigger] inc[a]).0.path == k && inc[a].1
                        == r.paths[k]) || (exists|j: int|
                    0 <= j < n && (#[trigger] page[j]).id == r.paths[k] && plan[j] is Put
                        && plan[j]->local.path == k)
            &&& forall|k: Seq<char>| #[trigger]
                r.folds.dom().contains(k) ==> (exists|a: int|
                    0 <= a < inc.len() && (#[trigger] inc[a]).0.fold == k && inc[a].1
                        == r.folds[k]) || (exists|j: int|
                    0 <= j < n && (#[trigger] page[j]).id == r.folds[k] && plan[j] is Put
                        && plan[j]->local.fold == k)
            &&& forall|id: u128| #[trigger]
                r.out.dom().contains(id) ==> {
                    let at = r.out[id].1 as int;
                    &&& 0 <= at < n
                    &&& page[at].id == id
                    &&& plan[at] is Put
                    &&& under_any(rel_of(page[at].path, scope), prefixes) || contended(
                        inc,
                        page,
                        plan,
                        at,
                    )
                }
        }),
    decreases n,
{
    if n == 0 {
        lemma_seeded_from(inc);
    } else {
        let i = n - 1;
        lemma_round_causes(inc, prefixes, page, plan, scope, (n - 1) as nat);
        let before = round(inc, prefixes, page, plan, scope, (n - 1) as nat);
        let r = round(inc, prefixes, page, plan, scope, n);
        if let DispVal::Put { local, .. } = plan[i] {
            let rel = rel_of(page[i].path, scope);
            let c = conflict_of(before, prefixes, rel, local, page[i].id);
            if c is Some && !under_any(rel, prefixes) {
                assert(contended(inc, page, plan, i)) by {
                    if before.paths.dom().contains(local.path) && before.paths[local.path]
                        != page[i].id {
                        if exists|a: int|
                            0 <= a < inc.len() && (#[trigger] inc[a]).0.path == local.path
                                && inc[a].1 == before.paths[local.path] {
                            let a = choose|a: int|
                                0 <= a < inc.len() && (#[trigger] inc[a]).0.path == local.path
                                    && inc[a].1 == before.paths[local.path];
                            assert(one_place(inc[a].0, plan[i]->local));
                        } else {
                            let j = choose|j: int|
                                0 <= j < n - 1 && (#[trigger] page[j]).id
                                    == before.paths[local.path] && plan[j] is Put
                                    && plan[j]->local.path == local.path;
                            assert(one_place(plan[j]->local, plan[i]->local));
                        }
                    } else {
                        if exists|a: int|
                            0 <= a < inc.len() && (#[trigger] inc[a]).0.fold == local.fold
                                && inc[a].1 == before.folds[local.fold] {
                            let a = choose|a: int|
                                0 <= a < inc.len() && (#[trigger] inc[a]).0.fold == local.fold
                                    && inc[a].1 == before.folds[local.fold];
                            assert(one_place(inc[a].0, plan[i]->local));
                        } else {
                            let j = choose|j: int|
                                0 <= j < n - 1 && (#[trigger] page[j]).id
                                    == before.folds[local.fold] && plan[j] is Put
                                    && plan[j]->local.fold == local.fold;
                            assert(one_place(plan[j]->local, plan[i]->local));
                        }
                    }
                }
            }
            assert(page[i].id == page[i].id);
            assert forall|k: Seq<char>| #[trigger] r.paths.dom().contains(k) implies (exists|
                a: int,
            |
                0 <= a < inc.len() && (#[trigger] inc[a]).0.path == k && inc[a].1 == r.paths[k])
                || (exists|j: int|
                0 <= j < n && (#[trigger] page[j]).id == r.paths[k] && plan[j] is Put
                    && plan[j]->local.path == k) by {
                if before.paths.dom().contains(k) {
                    assert(r.paths[k] == before.paths[k]);
                } else {
                    assert(page[i].id == r.paths[k]);
                }
            }
            assert forall|k: Seq<char>| #[trigger] r.folds.dom().contains(k) implies (exists|
                a: int,
            |
                0 <= a < inc.len() && (#[trigger] inc[a]).0.fold == k && inc[a].1 == r.folds[k])
                || (exists|j: int|
                0 <= j < n && (#[trigger] page[j]).id == r.folds[k] && plan[j] is Put
                    && plan[j]->local.fold == k) by {
                if before.folds.dom().contains(k) {
                    assert(r.folds[k] == before.folds[k]);
                } else {
                    assert(page[i].id == r.folds[k]);
                }
            }
            assert forall|id: u128| #[trigger] r.out.dom().contains(id) implies {
                let at = r.out[id].1 as int;
                &&& 0 <= at < n
                &&& page[at].id == id
                &&& plan[at] is Put
                &&& under_any(rel_of(page[at].path, scope), prefixes) || contended(
                    inc,
                    page,
                    plan,
                    at,
                )
            } by {
                if id == page[i].id && c is Some {
                    assert(r.out[id].1 == i);
                } else {
                    assert(before.out.dom().contains(id));
                    assert(r.out[id] == before.out[id]);
                }
            }
        }
    }
}

proof fn lemma_prefix_causes(
    durable: Seq<Seq<char>>,
    page: Seq<DeliveredVal>,
    plan: Seq<DispVal>,
    parked: Set<u128>,
    scope: Option<Seq<char>>,
    n: nat,
)
    requires
        n <= page.len() == plan.len(),
    ensures
        forall|q: Seq<char>| #[trigger]
            prefixes_of(durable, page, plan, parked, scope, n).contains(q) ==> durable.contains(q)
                || exists|j: int|
                #![trigger page[j]]
                0 <= j < n && (plan[j] is Park || parked.contains(page[j].id)) && folder_prefix(
                    page[j].path,
                    scope,
                ) == Some(q),
    decreases n,
{
    if n > 0 {
        lemma_prefix_causes(durable, page, plan, parked, scope, (n - 1) as nat);
        let before = prefixes_of(durable, page, plan, parked, scope, (n - 1) as nat);
        let all = prefixes_of(durable, page, plan, parked, scope, n);
        assert forall|q: Seq<char>| #[trigger] all.contains(q) implies durable.contains(q)
            || exists|j: int|
            #![trigger page[j]]
            0 <= j < n && (plan[j] is Park || parked.contains(page[j].id)) && folder_prefix(
                page[j].path,
                scope,
            ) == Some(q) by {
            let w = choose|w: int| 0 <= w < all.len() && all[w] == q;
            if w < before.len() {
                assert(before[w] == q);
                assert(before.contains(q));
            } else {
                assert(folder_prefix(page[n - 1].path, scope) == Some(q));
            }
        }
    }
}

proof fn lemma_durable_causes(
    parks: Map<u128, ParkVal>,
    page: Seq<DeliveredVal>,
    scope: Option<Seq<char>>,
    ids: Seq<u128>,
)
    ensures
        forall|q: Seq<char>| #[trigger]
            prefixes_among(parks, page, scope, ids).contains(q) ==> exists|id: u128|
                #![trigger parks[id]]
                ids.contains(id) && !delivers(page, id) && folder_prefix(
                    parks[id].server_path,
                    scope,
                ) == Some(q),
    decreases ids.len(),
{
    if ids.len() > 0 {
        let rest = ids.drop_last();
        lemma_durable_causes(parks, page, scope, rest);
        let before = prefixes_among(parks, page, scope, rest);
        let all = prefixes_among(parks, page, scope, ids);
        assert forall|q: Seq<char>| #[trigger] all.contains(q) implies exists|id: u128|
            #![trigger parks[id]]
            ids.contains(id) && !delivers(page, id) && folder_prefix(parks[id].server_path, scope)
                == Some(q) by {
            let w = choose|w: int| 0 <= w < all.len() && all[w] == q;
            if w < before.len() {
                assert(before[w] == q);
                assert(before.contains(q));
                let id = choose|id: u128|
                    #![trigger parks[id]]
                    rest.contains(id) && !delivers(page, id) && folder_prefix(
                        parks[id].server_path,
                        scope,
                    ) == Some(q);
                let z = choose|z: int| 0 <= z < rest.len() && rest[z] == id;
                assert(ids[z] == id);
                assert(parks[id] == parks[id]);
            } else {
                assert(ids[ids.len() - 1] == ids.last());
                assert(parks[ids.last()] == parks[ids.last()]);
            }
        }
    }
}

proof fn lemma_incumbent_causes(
    nodes: Map<u128, NodeVal>,
    ledger: Set<u128>,
    page: Seq<DeliveredVal>,
    ids: Seq<u128>,
)
    ensures
        forall|a: int|
            0 <= a < incumbents_among(nodes, ledger, page, ids).len() ==> ids.contains(
                (#[trigger] incumbents_among(nodes, ledger, page, ids)[a]).1,
            ) && ledger.contains(incumbents_among(nodes, ledger, page, ids)[a].1) && !delivers(
                page,
                incumbents_among(nodes, ledger, page, ids)[a].1,
            ) && incumbents_among(nodes, ledger, page, ids)[a].0
                == nodes[incumbents_among(nodes, ledger, page, ids)[a].1].local,
    decreases ids.len(),
{
    if ids.len() > 0 {
        let rest = ids.drop_last();
        lemma_incumbent_causes(nodes, ledger, page, rest);
        let before = incumbents_among(nodes, ledger, page, rest);
        let all = incumbents_among(nodes, ledger, page, ids);
        assert forall|a: int| 0 <= a < all.len() implies ids.contains((#[trigger] all[a]).1)
            && ledger.contains(all[a].1) && !delivers(page, all[a].1) && all[a].0
            == nodes[all[a].1].local by {
            if a < before.len() {
                assert(before[a] == all[a]);
                let z = choose|z: int| 0 <= z < rest.len() && rest[z] == all[a].1;
                assert(ids[z] == all[a].1);
            } else {
                assert(ids[ids.len() - 1] == ids.last());
            }
        }
    }
}

proof fn lemma_inside(path: Seq<char>, folder: Seq<char>, scope: Option<Seq<char>>)
    requires
        in_scope(path, scope) is Some,
        in_scope(path, scope)->0.len() > 0,
        folder_prefix(folder, scope) is Some,
        begins(rel_of(path, scope), folder_prefix(folder, scope)->0),
    ensures
        lies_inside(path, folder),
{
    reveal_strlit("/");
    let rel = in_scope(path, scope)->0;
    let relf = in_scope(folder, scope)->0;
    lemma_lies_at(path, scope, rel);
    lemma_lies_at(folder, scope, relf);
    let pre = relf + "/"@;
    assert(rel.subrange(0, pre.len() as int) =~= pre);
    assert(rel =~= pre + rel.subrange(pre.len() as int, rel.len() as int));
    let more = rel.subrange(pre.len() as int, rel.len() as int);
    match scope {
        None => {
            assert(path =~= (folder + "/"@) + more);
        },
        Some(f) => {
            assert(path =~= (folder + "/"@) + more);
        },
    }
    assert(path.subrange(0, (folder + "/"@).len() as int) =~= folder + "/"@);
    assert(path.take((folder + "/"@).len() as int) =~= folder + "/"@);
}

/// What could be mirrored and is held back all the same is held back for a cause: another node that
/// is materialized, or one that stands before it in the page, has its place, or it lies inside a
/// folder that was held back before, or inside one that the page delivers and that may be held back
/// with it.
pub proof fn nothing_is_held_back_without_cause(
    nodes: Map<u128, NodeVal>,
    ledger: Set<u128>,
    parks: Map<u128, ParkVal>,
    idx: Claims,
    ws: u128,
    scope: Option<Seq<char>>,
    controls: Seq<Seq<char>>,
    rules: FsRules,
    page: Seq<DeliveredVal>,
    i: int,
)
    requires
        nodes.dom().finite(),
        parks.dom().finite(),
        page.len() <= usize::MAX,
        ids_differ(page),
        0 <= i < page.len(),
        classified_page(nodes, idx, ws, scope, controls, rules, page)[i] is Put,
        planned(nodes, ledger, parks, idx, ws, scope, controls, rules, page)[i] is Park,
    ensures
        ({
            let cls = classified_page(nodes, idx, ws, scope, controls, rules, page);
            ||| exists|id: u128|
                #![trigger nodes[id]]
                nodes.dom().contains(id) && ledger.contains(id) && !delivers(page, id) && one_place(
                    nodes[id].local,
                    cls[i]->local,
                )
            ||| exists|j: int|
                #![trigger page[j]]
                0 <= j < i && cls[j] is Put && one_place(cls[j]->local, cls[i]->local)
            ||| exists|id: u128|
                #![trigger parks[id]]
                parks.dom().contains(id) && !delivers(page, id) && lies_inside(
                    page[i].path,
                    parks[id].server_path,
                )
            ||| exists|j: int|
                #![trigger page[j]]
                0 <= j < page.len() && (cls[j] is Park || cls[j] is Put) && lies_inside(
                    page[i].path,
                    page[j].path,
                )
        }),
{
    let cls = classified_page(nodes, idx, ws, scope, controls, rules, page);
    let g = ground_of(nodes, ledger, parks, scope, page);
    let v = verdicts(g, page, cls);
    let id = page[i].id;
    assert(v.dom().contains(id));
    let parked = lemma_settled_by(g, page, cls, page.len() + 2, Map::empty());
    let prefixes = prefixes_of(g.durable, page, cls, parked, g.scope, page.len());
    lemma_round_causes(g.inc, prefixes, page, cls, scope, page.len());
    let at = v[id].1 as int;
    if at < i {
        assert(page[at].id != page[i].id);
    } else if i < at {
        assert(page[i].id != page[at].id);
    }
    assert(at == i);
    lemma_roll_exists(nodes.dom());
    lemma_roll_exists(parks.dom());
    lemma_incumbent_causes(nodes, ledger, page, roll(nodes.dom()));
    if contended(g.inc, page, cls, i) {
        if exists|a: int|
            0 <= a < g.inc.len() && (#[trigger] g.inc[a]).1 != page[i].id && one_place(
                g.inc[a].0,
                cls[i]->local,
            ) {
            let a = choose|a: int|
                0 <= a < g.inc.len() && (#[trigger] g.inc[a]).1 != page[i].id && one_place(
                    g.inc[a].0,
                    cls[i]->local,
                );
            let o = g.inc[a].1;
            assert(roll(nodes.dom()).contains(o));
            assert(nodes.dom().contains(o));
            assert(one_place(nodes[o].local, cls[i]->local));
        }
    } else {
        let w = choose|w: int|
            0 <= w < prefixes.len() && begins(rel_of(page[i].path, scope), #[trigger] prefixes[w]);
        let q = prefixes[w];
        assert(prefixes.contains(q));
        lemma_prefix_causes(g.durable, page, cls, parked, scope, page.len());
        lemma_durable_causes(parks, page, scope, roll(parks.dom()));
        if g.durable.contains(q) {
            let o = choose|o: u128|
                #![trigger parks[o]]
                roll(parks.dom()).contains(o) && !delivers(page, o) && folder_prefix(
                    parks[o].server_path,
                    scope,
                ) == Some(q);
            assert(parks.dom().contains(o));
            lemma_inside(page[i].path, parks[o].server_path, scope);
        } else {
            let j = choose|j: int|
                #![trigger page[j]]
                0 <= j < page.len() && (cls[j] is Park || parked.contains(page[j].id))
                    && folder_prefix(page[j].path, scope) == Some(q);
            lemma_inside(page[i].path, page[j].path, scope);
            if !(cls[j] is Park) {
                lemma_parked_is_put(g, page, cls, page.len() + 2, Map::empty(), j);
            }
        }
    }
}

proof fn lemma_settled_by(
    g: Ground,
    page: Seq<DeliveredVal>,
    plan: Seq<DispVal>,
    rounds: nat,
    prev: Verdicts,
) -> (parked: Set<u128>)
    requires
        rounds > 0,
    ensures
        settle(g, page, plan, rounds, prev) == crate::plan::derive(g, page, plan, parked),
        parked == settled_parks(g, page, plan, rounds, prev),
    decreases rounds,
{
    reveal_with_fuel(settle, 2);
    let next = crate::plan::derive(g, page, plan, prev.dom());
    if next.dom() == prev.dom() || rounds == 1 {
        prev.dom()
    } else {
        lemma_settled_by(g, page, plan, (rounds - 1) as nat, next)
    }
}

/// What is held back in the round before the last.
spec fn settled_parks(
    g: Ground,
    page: Seq<DeliveredVal>,
    plan: Seq<DispVal>,
    rounds: nat,
    prev: Verdicts,
) -> Set<u128>
    decreases rounds,
{
    let next = crate::plan::derive(g, page, plan, prev.dom());
    if next.dom() == prev.dom() || rounds <= 1 {
        prev.dom()
    } else {
        settled_parks(g, page, plan, (rounds - 1) as nat, next)
    }
}

proof fn lemma_parked_is_put(
    g: Ground,
    page: Seq<DeliveredVal>,
    plan: Seq<DispVal>,
    rounds: nat,
    prev: Verdicts,
    j: int,
)
    requires
        page.len() == plan.len() <= usize::MAX,
        ids_differ(page),
        0 <= j < page.len(),
        forall|id: u128| #[trigger]
            prev.dom().contains(id) ==> exists|a: int|
                0 <= a < page.len() && (#[trigger] page[a]).id == id && plan[a] is Put,
        settled_parks(g, page, plan, rounds, prev).contains(page[j].id),
    ensures
        plan[j] is Put,
    decreases rounds,
{
    let next = crate::plan::derive(g, page, plan, prev.dom());
    if next.dom() == prev.dom() || rounds <= 1 {
        let a = choose|a: int|
            0 <= a < page.len() && (#[trigger] page[a]).id == page[j].id && plan[a] is Put;
        if a < j {
            assert(page[a].id != page[j].id);
        } else if j < a {
            assert(page[j].id != page[a].id);
        }
    } else {
        let prefixes = prefixes_of(g.durable, page, plan, prev.dom(), g.scope, page.len());
        lemma_round_causes(g.inc, prefixes, page, plan, g.scope, page.len());
        assert forall|id: u128| #[trigger] next.dom().contains(id) implies exists|a: int|
            0 <= a < page.len() && (#[trigger] page[a]).id == id && plan[a] is Put by {
            assert(page[next[id].1 as int].id == id);
        }
        lemma_parked_is_put(g, page, plan, (rounds - 1) as nat, next, j);
    }
}

/// A page without contention is written whole: where no delivery has a place that another one, or a
/// materialized node which the page does not deliver, has too, and nothing lies inside a folder
/// that is held back on its own or was held back before, every delivery stays what it is on its
/// own.
pub proof fn a_page_without_contention_is_written_whole(
    nodes: Map<u128, NodeVal>,
    ledger: Set<u128>,
    parks: Map<u128, ParkVal>,
    idx: Claims,
    ws: u128,
    scope: Option<Seq<char>>,
    controls: Seq<Seq<char>>,
    rules: FsRules,
    page: Seq<DeliveredVal>,
    i: int,
)
    requires
        nodes.dom().finite(),
        parks.dom().finite(),
        page.len() <= usize::MAX,
        0 <= i < page.len(),
        ({
            let cls = classified_page(nodes, idx, ws, scope, controls, rules, page);
            &&& forall|a: int, b: int|
                #![trigger page[a], page[b]]
                0 <= a < b < page.len() && cls[a] is Put && cls[b] is Put ==> !one_place(
                    cls[a]->local,
                    cls[b]->local,
                )
            &&& forall|a: int, id: u128|
                #![trigger page[a], nodes[id]]
                0 <= a < page.len() && cls[a] is Put && nodes.dom().contains(id)
                    && ledger.contains(id) && !delivers(page, id) ==> !one_place(
                    nodes[id].local,
                    cls[a]->local,
                )
            &&& forall|a: int, b: int|
                #![trigger page[a], page[b]]
                0 <= a < page.len() && 0 <= b < page.len() && cls[a] is Put && cls[b] is Park
                    ==> !lies_inside(page[a].path, page[b].path)
            &&& forall|a: int, id: u128|
                #![trigger page[a], parks[id]]
                0 <= a < page.len() && cls[a] is Put && parks.dom().contains(id) && !delivers(
                    page,
                    id,
                ) ==> !lies_inside(page[a].path, parks[id].server_path)
        }),
    ensures
        planned(nodes, ledger, parks, idx, ws, scope, controls, rules, page)[i] == classified_page(
            nodes,
            idx,
            ws,
            scope,
            controls,
            rules,
            page,
        )[i],
{
    let cls = classified_page(nodes, idx, ws, scope, controls, rules, page);
    let g = ground_of(nodes, ledger, parks, scope, page);
    let none = Set::<u128>::empty();
    let prefixes = prefixes_of(g.durable, page, cls, none, scope, page.len());
    lemma_round_causes(g.inc, prefixes, page, cls, scope, page.len());
    lemma_roll_exists(nodes.dom());
    lemma_roll_exists(parks.dom());
    lemma_incumbent_causes(nodes, ledger, page, roll(nodes.dom()));
    lemma_prefix_causes(g.durable, page, cls, none, scope, page.len());
    lemma_durable_causes(parks, page, scope, roll(parks.dom()));
    let first = crate::plan::derive(g, page, cls, none);
    assert forall|id: u128| !#[trigger] first.dom().contains(id) by {
        if first.dom().contains(id) {
            let at = first[id].1 as int;
            if contended(g.inc, page, cls, at) {
                if exists|a: int|
                    0 <= a < g.inc.len() && (#[trigger] g.inc[a]).1 != page[at].id && one_place(
                        g.inc[a].0,
                        cls[at]->local,
                    ) {
                    let a = choose|a: int|
                        0 <= a < g.inc.len() && (#[trigger] g.inc[a]).1 != page[at].id && one_place(
                            g.inc[a].0,
                            cls[at]->local,
                        );
                    let o = g.inc[a].1;
                    assert(roll(nodes.dom()).contains(o));
                    assert(nodes.dom().contains(o));
                    assert(!one_place(nodes[o].local, cls[at]->local));
                }
            } else {
                let w = choose|w: int|
                    0 <= w < prefixes.len() && begins(
                        rel_of(page[at].path, scope),
                        #[trigger] prefixes[w],
                    );
                let q = prefixes[w];
                assert(prefixes.contains(q));
                if g.durable.contains(q) {
                    let o = choose|o: u128|
                        #![trigger parks[o]]
                        roll(parks.dom()).contains(o) && !delivers(page, o) && folder_prefix(
                            parks[o].server_path,
                            scope,
                        ) == Some(q);
                    assert(parks.dom().contains(o));
                    lemma_inside(page[at].path, parks[o].server_path, scope);
                } else {
                    let j = choose|j: int|
                        #![trigger page[j]]
                        0 <= j < page.len() && (cls[j] is Park || none.contains(page[j].id))
                            && folder_prefix(page[j].path, scope) == Some(q);
                    lemma_inside(page[at].path, page[j].path, scope);
                }
            }
        }
    }
    assert(first.dom() =~= none);
    assert(Map::<u128, (Conflict, usize)>::empty().dom() =~= none);
    assert(verdicts(g, page, cls) == first);
}

} // verus!
