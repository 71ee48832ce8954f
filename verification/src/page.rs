//! Carrying a page out: what each step asks of the disk, and what the state becomes for each
//! answer.

use vstd::prelude::*;

use std::collections::BTreeSet;

use vstd::hash_map::StringHashMap;

use crate::apply::build_claim_index;
use crate::apply::claimed;
use crate::apply::coherent;
use crate::apply::index_of;
use crate::apply::leaf_of;
use crate::apply::node_at;
use crate::apply::released_opt;
use crate::apply::relocated_leaf;
use crate::apply::track_node;
use crate::apply::tracking_keeps_claims_coherent;
use crate::apply::untrack_node;
use crate::apply::untracking_keeps_claims_coherent;
use crate::apply::ClaimIndex;
use crate::apply::Claims;
use crate::apply::Delivered;
use crate::apply::DeliveredVal;
use crate::apply::Disp;
use crate::apply::DispVal;
use crate::course::awaited;
use crate::course::first_waiting;
use crate::course::lemma_begins_on_course;
use crate::course::lemma_note_taken;
use crate::course::lemma_pass_keeps_course;
use crate::course::lemma_step_keeps_course;
use crate::course::node_for;
use crate::course::on_course;
use crate::course::others_stay;
use crate::course::parked_as;
use crate::course::Start;
use crate::digest::hex_of;
use crate::digest::sha256_of;
use crate::digest::sha_hex;
use crate::state::copy_opt_spot;
use crate::state::opt_node;
use crate::state::is_roll;
use crate::state::opt_spot;
use crate::state::roll;
use crate::state::NodeState;
use crate::state::NodeVal;
use crate::state::Park;
use crate::state::ParkClass;
use crate::state::ParkVal;
use crate::state::Spot;
use crate::state::SpotVal;
use crate::state::TrackedKind;
use crate::state::WsState;
use crate::text::begins;
use crate::text::cat3;
use crate::text::cat5;
use crate::text::same;
use crate::text::starts_with;
use crate::text::strs;

verus! {

broadcast use vstd::std_specs::btree::group_btree_axioms;

/// What was found at the place a delivery goes to, once its parent directories were made.
#[derive(Debug)]
pub enum Seen {
    /// The directories could not be made, for this reason.
    Blocked(String),
    Missing,
    Directory,
    /// A file, and whether it holds exactly what would be written.
    File { same: bool },
}

/// What came of a delivery on disk.
#[derive(Debug)]
pub enum WriteOutcome {
    Written,
    /// What was there is exactly what would have been written.
    Adopted,
    Parked(String),
    /// Something of ours that another delivery of the page vacates is in the way.
    InTheWay,
}

/// What a [`WriteOutcome`] says.
pub enum OutcomeVal {
    Written,
    Adopted,
    Parked(Seq<char>),
    InTheWay,
}

impl WriteOutcome {
    pub open spec fn view(&self) -> OutcomeVal {
        match self {
            WriteOutcome::Written => OutcomeVal::Written,
            WriteOutcome::Adopted => OutcomeVal::Adopted,
            WriteOutcome::Parked(s) => OutcomeVal::Parked(s@),
            WriteOutcome::InTheWay => OutcomeVal::InTheWay,
        }
    }
}

/// What is to be done at the place a delivery goes to.
#[derive(Debug)]
pub enum PutStep {
    /// Write the file.
    Write,
    /// Lift the read-only bit, then write the file.
    Overwrite,
    /// Make the directory.
    MakeDir,
    /// Nothing; this is what came of it.
    Settled(WriteOutcome),
}

/// What a [`PutStep`] asks for.
pub enum PutVal {
    Write,
    Overwrite,
    MakeDir,
    Settled(OutcomeVal),
}

impl PutStep {
    pub open spec fn view(&self) -> PutVal {
        match self {
            PutStep::Write => PutVal::Write,
            PutStep::Overwrite => PutVal::Overwrite,
            PutStep::MakeDir => PutVal::MakeDir,
            PutStep::Settled(o) => PutVal::Settled(o.view()),
        }
    }
}

/// The occupancy rules for a file: what is ours is overwritten, a stranger's file is adopted if
/// it is the same and left alone if it is not, and a directory is never replaced.
pub open spec fn file_step(owned: bool, place: Seq<char>, seen: Seen) -> PutVal {
    match seen {
        Seen::Blocked(e) => PutVal::Settled(
            OutcomeVal::Parked(
                "cannot create the parent directory for "@ + place + " ("@ + e@
                    + ") — run `docli sync --full` once the blocking file is gone"@,
            ),
        ),
        Seen::Missing => PutVal::Write,
        Seen::Directory => if owned {
            PutVal::Settled(OutcomeVal::InTheWay)
        } else {
            PutVal::Settled(
                OutcomeVal::Parked(
                    "an untracked directory occupies "@ + place
                        + " — remove it and run `docli sync --full`"@,
                ),
            )
        },
        Seen::File { same } => if owned {
            PutVal::Overwrite
        } else if same {
            PutVal::Settled(OutcomeVal::Adopted)
        } else {
            PutVal::Settled(
                OutcomeVal::Parked(
                    "a divergent untracked file occupies "@ + place
                        + " — remove it and run `docli sync --full`"@,
                ),
            )
        },
    }
}

/// Decide how a file is written, given who owns the place and what is there.
pub fn write_tracked(owned: bool, place: &str, seen: &Seen) -> (r: PutStep)
    ensures
        r.view() == file_step(owned, place@, *seen),
{
    match seen {
        Seen::Blocked(e) => PutStep::Settled(
            WriteOutcome::Parked(
                cat5(
                    "cannot create the parent directory for ",
                    place,
                    " (",
                    e.as_str(),
                    ") — run `docli sync --full` once the blocking file is gone",
                ),
            ),
        ),
        Seen::Missing => PutStep::Write,
        Seen::Directory => if owned {
            PutStep::Settled(WriteOutcome::InTheWay)
        } else {
            PutStep::Settled(
                WriteOutcome::Parked(
                    cat3(
                        "an untracked directory occupies ",
                        place,
                        " — remove it and run `docli sync --full`",
                    ),
                ),
            )
        },
        Seen::File { same } => if owned {
            PutStep::Overwrite
        } else if *same {
            PutStep::Settled(WriteOutcome::Adopted)
        } else {
            PutStep::Settled(
                WriteOutcome::Parked(
                    cat3(
                        "a divergent untracked file occupies ",
                        place,
                        " — remove it and run `docli sync --full`",
                    ),
                ),
            )
        },
    }
}

/// The rules for a folder: a file of ours makes way later, a stranger's does not.
pub open spec fn folder_step(owned: bool, place: Seq<char>, seen: Seen) -> PutVal {
    match seen {
        Seen::File { .. } => if owned {
            PutVal::Settled(OutcomeVal::InTheWay)
        } else {
            PutVal::Settled(
                OutcomeVal::Parked(
                    "an untracked file occupies the folder path "@ + place
                        + " — remove it and                          run `docli sync --full`"@,
                ),
            )
        },
        Seen::Blocked(e) => PutVal::Settled(
            OutcomeVal::Parked(
                "cannot create the directory "@ + place + " ("@ + e@
                    + ") — run `docli sync --full` once the blocking file is gone"@,
            ),
        ),
        _ => PutVal::MakeDir,
    }
}

/// Decide how a folder is made, given who owns the place and what is there.
pub fn make_folder(owned: bool, place: &str, seen: &Seen) -> (r: PutStep)
    ensures
        r.view() == folder_step(owned, place@, *seen),
{
    match seen {
        Seen::File { .. } => if owned {
            PutStep::Settled(WriteOutcome::InTheWay)
        } else {
            PutStep::Settled(
                WriteOutcome::Parked(
                    cat3(
                        "an untracked file occupies the folder path ",
                        place,
                        " — remove it and                          run `docli sync --full`",
                    ),
                ),
            )
        },
        Seen::Blocked(e) => PutStep::Settled(
            WriteOutcome::Parked(
                cat5(
                    "cannot create the directory ",
                    place,
                    " (",
                    e.as_str(),
                    ") — run `docli sync --full` once the blocking file is gone",
                ),
            ),
        ),
        _ => PutStep::MakeDir,
    }
}

/// Where a delivery is materialized.
#[derive(Debug)]
pub enum Place {
    /// At this path of the mount.
    Mount(String),
    /// Under this name in the workspace's own directory of markers.
    Marker(String),
}

/// What a [`Place`] says.
pub enum PlaceVal {
    Mount(Seq<char>),
    Marker(Seq<char>),
}

pub open spec fn opt_place(p: Option<Place>) -> Option<PlaceVal> {
    match p {
        Some(Place::Mount(s)) => Some(PlaceVal::Mount(s@)),
        Some(Place::Marker(s)) => Some(PlaceVal::Marker(s@)),
        None => None,
    }
}

pub open spec fn place_of(d: DispVal, ws: u128) -> Option<PlaceVal> {
    match d {
        DispVal::Put { kind, local, marker, .. } => if kind == TrackedKind::Attachment {
            match marker {
                Some(m) => if begins(m.path, ".docli/markers/"@) {
                    match leaf_of(m.path, ws) {
                        Some(leaf) => Some(PlaceVal::Marker(leaf)),
                        None => None,
                    }
                } else {
                    Some(PlaceVal::Mount(m.path))
                },
                None => None,
            }
        } else {
            Some(PlaceVal::Mount(local.path))
        },
        _ => None,
    }
}

/// What a put asks for: the place, whether it is ours, and the step. `None` for the path of a
/// delivery that is not materialized.
pub open spec fn put_step(d: DispVal, idx: Claims, owned: Set<Seq<char>>, seen: Seen) -> Option<
    PutVal,
> {
    match d {
        DispVal::Put { kind, local, marker, .. } => {
            let ours = |fold: Seq<char>| idx.dom().contains(fold) || owned.contains(fold);
            match kind {
                TrackedKind::Folder => Some(folder_step(ours(local.fold), local.path, seen)),
                TrackedKind::Note => Some(file_step(ours(local.fold), local.path, seen)),
                TrackedKind::Attachment => match marker {
                    Some(m) => if begins(m.path, ".docli/markers/"@) {
                        Some(PutVal::Overwrite)
                    } else {
                        Some(file_step(ours(m.fold), m.path, seen))
                    },
                    None => None,
                },
            }
        },
        _ => None,
    }
}

/// The state counters of a page.
#[derive(Debug)]
pub struct ApplyStats {
    pub written: usize,
    pub adopted: usize,
    pub removed: usize,
    pub parked: usize,
    /// Directories that could not be removed yet.
    pub pending_dir_removals: Vec<String>,
}

/// A node that has moved: its former path, or the former place of its marker, is another file.
pub open spec fn has_moved(prev: NodeVal, local: SpotVal, marker: Option<SpotVal>) -> bool {
    ||| prev.local.fold != local.fold
    ||| prev.kind == TrackedKind::Attachment && fold_opt(prev.marker) != fold_opt(marker)
}

pub open spec fn fold_opt(s: Option<SpotVal>) -> Option<Seq<char>> {
    match s {
        Some(x) => Some(x.fold),
        None => None,
    }
}

fn moved(prev: &NodeState, local: &Spot, marker: &Option<Spot>) -> (r: bool)
    ensures
        r == has_moved(prev.view(), local.view(), opt_spot(*marker)),
{
    if !same(prev.local.fold.as_str(), local.fold.as_str()) {
        return true;
    }
    if prev.kind != TrackedKind::Attachment {
        return false;
    }
    match (&prev.marker, marker) {
        (Some(a), Some(b)) => !same(a.fold.as_str(), b.fold.as_str()),
        (None, None) => false,
        _ => true,
    }
}

/// What is remembered of a node that was materialized.
pub open spec fn node_of(d: DeliveredVal, disp: DispVal) -> NodeVal {
    NodeVal {
        server_path: d.path,
        local: disp->local,
        kind: disp->kind,
        rev: d.rev,
        content_sha256: if disp->kind == TrackedKind::Folder {
            Seq::empty()
        } else {
            hex_of(sha256_of(vstd::utf8::encode_utf8(disp->text)))
        },
        marker: disp->marker,
    }
}

/// What is left to delete of a former materialization.
#[derive(Debug)]
pub enum Removal {
    /// Nothing.
    Keep,
    /// A directory, once it is empty.
    Dir(String),
    /// A file of the mount.
    File(String),
    /// A relocated marker, by its file name.
    Marker(String),
}

/// What a [`Removal`] says.
pub enum RemovalVal {
    Keep,
    Dir(Seq<char>),
    File(Seq<char>),
    Marker(Seq<char>),
}

impl Removal {
    pub open spec fn view(&self) -> RemovalVal {
        match self {
            Removal::Keep => RemovalVal::Keep,
            Removal::Dir(s) => RemovalVal::Dir(s@),
            Removal::File(s) => RemovalVal::File(s@),
            Removal::Marker(s) => RemovalVal::Marker(s@),
        }
    }
}

/// What goes of a former materialization: nothing that a node claims now, nothing at an empty
/// path, and no marker outside the workspace's own directory.
pub open spec fn removal_of(idx: Claims, ws: u128, prev: NodeVal) -> RemovalVal {
    match prev.kind {
        TrackedKind::Folder => if idx.dom().contains(prev.local.fold) || prev.local.path.len() == 0 {
            RemovalVal::Keep
        } else {
            RemovalVal::Dir(prev.local.path)
        },
        TrackedKind::Note => if idx.dom().contains(prev.local.fold) || prev.local.path.len() == 0 {
            RemovalVal::Keep
        } else {
            RemovalVal::File(prev.local.path)
        },
        TrackedKind::Attachment => match prev.marker {
            None => RemovalVal::Keep,
            Some(m) => if idx.dom().contains(m.fold) {
                RemovalVal::Keep
            } else if begins(m.path, ".docli/"@) {
                match leaf_of(m.path, ws) {
                    Some(leaf) => RemovalVal::Marker(leaf),
                    None => RemovalVal::Keep,
                }
            } else if m.path.len() == 0 {
                RemovalVal::Keep
            } else {
                RemovalVal::File(m.path)
            },
        },
    }
}

/// Decide what goes of a former materialization.
pub fn remove_materialization(idx: &ClaimIndex, ws: u128, prev: &NodeState) -> (r: Removal)
    ensures
        r.view() == removal_of(idx.view(), ws, prev.view()),
{
    match prev.kind {
        TrackedKind::Folder => if idx.owner(prev.local.fold.as_str()).is_some()
            || prev.local.path.as_str().is_empty() {
            Removal::Keep
        } else {
            Removal::Dir(prev.local.path.clone())
        },
        TrackedKind::Note => if idx.owner(prev.local.fold.as_str()).is_some()
            || prev.local.path.as_str().is_empty() {
            Removal::Keep
        } else {
            Removal::File(prev.local.path.clone())
        },
        TrackedKind::Attachment => match &prev.marker {
            None => Removal::Keep,
            Some(m) => if idx.owner(m.fold.as_str()).is_some() {
                Removal::Keep
            } else if starts_with(m.path.as_str(), ".docli/") {
                match relocated_leaf(m.path.as_str(), ws) {
                    Some(leaf) => Removal::Marker(leaf),
                    None => Removal::Keep,
                }
            } else if m.path.as_str().is_empty() {
                Removal::Keep
            } else {
                Removal::File(m.path.clone())
            },
        },
    }
}

/// The number of slashes in a path.
pub open spec fn depth_of(path: Seq<char>) -> nat
    decreases path.len(),
{
    if path.len() == 0 {
        0
    } else {
        depth_of(path.drop_last()) + if path.last() == '/' {
            1nat
        } else {
            0nat
        }
    }
}

fn depth(path: &str) -> (r: usize)
    ensures
        r == depth_of(path@),
{
    let v = crate::text::chars_of(path);
    let mut n: usize = 0;
    for i in 0..v.len()
        invariant
            v@ == path@,
            n <= i,
            n == depth_of(v@.take(i as int)),
    {
        assert(v@.take(i + 1).drop_last() =~= v@.take(i as int));
        if v[i] == '/' {
            n += 1;
        }
    }
    assert(v@.take(v@.len() as int) =~= v@);
    n
}

/// `d` put into a list that is deepest first, behind everything at least as deep.
pub open spec fn insert_deep(sorted: Seq<Seq<char>>, d: Seq<char>) -> Seq<Seq<char>>
    decreases sorted.len(),
{
    if sorted.len() == 0 || depth_of(sorted.last()) >= depth_of(d) {
        sorted.push(d)
    } else {
        insert_deep(sorted.drop_last(), d).push(sorted.last())
    }
}

/// The directories deepest first, in their former order where they are equally deep.
pub open spec fn deepest_first(dirs: Seq<Seq<char>>) -> Seq<Seq<char>>
    decreases dirs.len(),
{
    if dirs.len() == 0 {
        dirs
    } else {
        insert_deep(deepest_first(dirs.drop_last()), dirs.last())
    }
}

fn insert_dir(sorted: &mut Vec<String>, d: String)
    ensures
        strs(final(sorted)@) == insert_deep(strs(old(sorted)@), d@),
{
    let k: usize = depth(d.as_str());
    let mut i: usize = sorted.len();
    let ghost all = strs(sorted@);
    assert(all.take(i as int) =~= all);
    assert(insert_deep(all, d@) + all.skip(i as int) =~= insert_deep(all, d@));
    while i > 0 && depth(sorted[i - 1].as_str()) < k
        invariant
            i <= sorted@.len(),
            all == strs(sorted@),
            sorted@ == old(sorted)@,
            k == depth_of(d@),
            insert_deep(all, d@) == insert_deep(all.take(i as int), d@) + all.skip(i as int),
        decreases i,
    {
        let ghost part = all.take(i as int);
        assert(part.drop_last() =~= all.take(i - 1));
        assert(part.last() == sorted@[i - 1]@);
        assert(insert_deep(all.take(i - 1), d@).push(part.last()) + all.skip(i as int)
            =~= insert_deep(all.take(i - 1), d@) + all.skip(i - 1));
        i -= 1;
    }
    proof {
        assert(i > 0 ==> all.take(i as int).last() == sorted@[i - 1]@);
        assert(insert_deep(all.take(i as int), d@) == all.take(i as int).push(d@));
        assert(strs(sorted@.insert(i as int, d)) =~= all.take(i as int).push(d@) + all.skip(
            i as int,
        ));
    }
    sorted.insert(i, d);
}

/// Sort directories so that what lies inside another comes before it.
pub fn sort_dirs(dirs: &Vec<String>) -> (r: Vec<String>)
    ensures
        strs(r@) == deepest_first(strs(dirs@)),
{
    let mut out: Vec<String> = Vec::new();
    let ghost all = strs(dirs@);
    assert(strs(out@) =~= deepest_first(all.take(0)));
    for i in 0..dirs.len()
        invariant
            all == strs(dirs@),
            strs(out@) == deepest_first(all.take(i as int)),
    {
        assert(all.take(i + 1).drop_last() =~= all.take(i as int));
        insert_dir(&mut out, dirs[i].clone());
    }
    assert(all.take(dirs@.len() as int) =~= all);
    out
}

proof fn lemma_insert_deep(sorted: Seq<Seq<char>>, d: Seq<char>)
    requires
        forall|i: int, j: int|
            0 <= i < j < sorted.len() ==> depth_of(#[trigger] sorted[i]) >= depth_of(
                #[trigger] sorted[j],
            ),
    ensures
        insert_deep(sorted, d).len() == sorted.len() + 1,
        insert_deep(sorted, d).to_multiset() == sorted.to_multiset().insert(d),
        forall|i: int, j: int|
            0 <= i < j < sorted.len() + 1 ==> depth_of(#[trigger] insert_deep(sorted, d)[i])
                >= depth_of(#[trigger] insert_deep(sorted, d)[j]),
        forall|i: int|
            0 <= i < sorted.len() + 1 ==> insert_deep(sorted, d)[i] == d || sorted.contains(
                #[trigger] insert_deep(sorted, d)[i],
            ),
    decreases sorted.len(),
{
    broadcast use vstd::seq_lib::group_to_multiset_ensures;

    let out = insert_deep(sorted, d);
    if sorted.len() == 0 || depth_of(sorted.last()) >= depth_of(d) {
        assert forall|i: int| 0 <= i < sorted.len() + 1 implies out[i] == d || sorted.contains(
            #[trigger] out[i],
        ) by {
            if i < sorted.len() {
                assert(sorted[i] == out[i]);
            }
        }
    } else {
        let rest = sorted.drop_last();
        lemma_insert_deep(rest, d);
        let inner = insert_deep(rest, d);
        assert(sorted =~= rest.push(sorted.last()));
        assert forall|i: int, j: int| 0 <= i < j < sorted.len() + 1 implies depth_of(
            #[trigger] out[i],
        ) >= depth_of(#[trigger] out[j]) by {
            if j == sorted.len() {
                assert(out[i] == inner[i]);
                if inner[i] != d {
                    let k = choose|k: int| 0 <= k < rest.len() && rest[k] == inner[i];
                    assert(sorted[k] == inner[i]);
                    assert(sorted[sorted.len() - 1] == sorted.last());
                }
            } else {
                assert(out[i] == inner[i] && out[j] == inner[j]);
            }
        }
        assert forall|i: int| 0 <= i < sorted.len() + 1 implies out[i] == d || sorted.contains(
            #[trigger] out[i],
        ) by {
            if i < sorted.len() {
                assert(out[i] == inner[i]);
                if inner[i] != d {
                    let k = choose|k: int| 0 <= k < rest.len() && rest[k] == inner[i];
                    assert(sorted[k] == inner[i]);
                }
            } else {
                assert(sorted[sorted.len() - 1] == out[i]);
            }
        }
    }
}

/// Sorting loses no directory, and a deeper one never comes after a shallower one, so that a
/// directory is tried only after everything inside it.
pub proof fn sorted_dirs_go_leaf_first(dirs: Seq<Seq<char>>)
    ensures
        deepest_first(dirs).to_multiset() == dirs.to_multiset(),
        forall|i: int, j: int|
            0 <= i < j < deepest_first(dirs).len() ==> depth_of(
                #[trigger] deepest_first(dirs)[i],
            ) >= depth_of(#[trigger] deepest_first(dirs)[j]),
    decreases dirs.len(),
{
    broadcast use vstd::seq_lib::group_to_multiset_ensures;

    if dirs.len() > 0 {
        sorted_dirs_go_leaf_first(dirs.drop_last());
        lemma_insert_deep(deepest_first(dirs.drop_last()), dirs.last());
        assert(dirs =~= dirs.drop_last().push(dirs.last()));
    }
}

proof fn lemma_sorting_keeps(dirs: Seq<String>, sorted: Seq<String>)
    requires
        strs(sorted) == deepest_first(strs(dirs)),
        forall|k: int| 0 <= k < dirs.len() ==> (#[trigger] dirs[k])@.len() > 0,
    ensures
        forall|k: int| 0 <= k < sorted.len() ==> (#[trigger] sorted[k])@.len() > 0,
{
    broadcast use vstd::seq_lib::group_to_multiset_ensures;

    sorted_dirs_go_leaf_first(strs(dirs));
    assert forall|k: int| 0 <= k < sorted.len() implies (#[trigger] sorted[k])@.len() > 0 by {
        assert(strs(sorted)[k] == sorted[k]@);
        assert(strs(sorted).contains(sorted[k]@));
        assert(strs(dirs).to_multiset().count(sorted[k]@) > 0);
        assert(strs(dirs).contains(sorted[k]@));
        let j = choose|j: int| 0 <= j < strs(dirs).len() && strs(dirs)[j] == sorted[k]@;
        assert(dirs[j]@ == sorted[k]@);
    }
}

/// The fold keys of everything that the nodes materialize inside the mount.
pub open spec fn owned_folds(nodes: Map<u128, NodeVal>) -> Set<Seq<char>> {
    Set::new(|k: Seq<char>| exists|id: u128| #[trigger] nodes.dom().contains(id) && owns(nodes[id], k))
}

pub open spec fn owns(n: NodeVal, fold: Seq<char>) -> bool {
    ||| n.kind != TrackedKind::Attachment && n.local.fold == fold
    ||| n.marker is Some && n.marker->0.fold == fold && !begins(n.marker->0.path, ".docli/"@)
}

/// What the mirror owns before a page: a write that lands there overwrites what the mirror put
/// there itself, never a user's file.
pub fn owned_locals(state: &WsState) -> (r: StringHashMap<bool>)
    ensures
        r@.dom() == owned_folds(state.nodes_v()),
{
    let ids = state.node_ids();
    let ghost nodes = state.nodes_v();
    let mut out: StringHashMap<bool> = StringHashMap::new();
    for i in 0..ids.len()
        invariant
            nodes == state.nodes_v(),
            forall|id: u128| #[trigger] ids@.contains(id) <==> nodes.dom().contains(id),
            forall|k: Seq<char>| #[trigger]
                out@.dom().contains(k) <==> exists|j: int|
                    0 <= j < i && owns(nodes[#[trigger] ids@[j]], k),
    {
        let id: u128 = ids[i];
        assert(ids@.contains(id));
        let ghost before = out@;
        if let Some(n) = state.node(id) {
            if n.kind != TrackedKind::Attachment {
                out.insert(n.local.fold.clone(), true);
            }
            if let Some(m) = &n.marker {
                if !starts_with(m.path.as_str(), ".docli/") {
                    out.insert(m.fold.clone(), true);
                }
            }
        }
        assert forall|k: Seq<char>| #[trigger]
            out@.dom().contains(k) <==> exists|j: int|
                0 <= j < i + 1 && owns(nodes[#[trigger] ids@[j]], k) by {
            assert(out@.dom().contains(k) <==> before.dom().contains(k) || owns(nodes[id], k));
            if owns(nodes[id], k) {
                assert(ids@[i as int] == id);
            }
        }
    }
    assert forall|k: Seq<char>| #[trigger] out@.dom().contains(k) <==> owned_folds(nodes).contains(
        k,
    ) by {
        if out@.dom().contains(k) {
            let j = choose|j: int| 0 <= j < ids@.len() && owns(nodes[#[trigger] ids@[j]], k);
            assert(ids@.contains(ids@[j]));
            assert(nodes.dom().contains(ids@[j]));
        }
        if owned_folds(nodes).contains(k) {
            let id = choose|id: u128| #[trigger] nodes.dom().contains(id) && owns(nodes[id], k);
            assert(ids@.contains(id));
            let j = choose|j: int| 0 <= j < ids@.len() && ids@[j] == id;
            assert(owns(nodes[ids@[j]], k));
        }
    }
    assert(out@.dom() =~= owned_folds(nodes));
    out
}

/// Where a page is in being carried out. Deletions wait until everything is written, and what
/// was in the way is tried again after them.
#[derive(Debug, Clone, Copy, PartialEq, Eq, Structural)]
pub enum Phase {
    Writing,
    Deleting,
    Clearing,
    Retrying,
    Finished,
}

/// What the caller is to do next.
#[derive(Debug)]
pub enum Action {
    /// Nothing; take the next step.
    Pass,
    /// Materialize this delivery of the page, and report what came of it.
    Put(usize),
    /// Delete what is left of a former materialization.
    Delete(Removal),
    /// Remove this directory if it is empty, and report if it could not be removed.
    RemoveDir(String),
    /// The page is done.
    Done,
}

/// A delivery that something of ours was in the way of, and what its node was before.
#[derive(Debug)]
pub struct Retry {
    pub at: usize,
    pub prev: Option<NodeState>,
}

/// A page that is being carried out.
pub struct PageRun {
    pub state: WsState,
    pub idx: ClaimIndex,
    pub owned: StringHashMap<bool>,
    pub ws: u128,
    pub page: Vec<Delivered>,
    pub plan: Vec<Disp>,
    pub phase: Phase,
    pub at: usize,
    pub removals: Vec<(u128, NodeState)>,
    pub dirs: Vec<String>,
    pub retries: Vec<Retry>,
    pub stats: ApplyStats,
}

pub open spec fn removals_of(v: Seq<(u128, NodeState)>) -> Seq<(u128, NodeVal)> {
    Seq::new(v.len(), |i: int| (v[i].0, v[i].1.view()))
}

proof fn lemma_removals_push(v: Seq<(u128, NodeState)>, e: (u128, NodeState))
    ensures
        removals_of(v.push(e)) == removals_of(v).push((e.0, e.1.view())),
{
    assert(removals_of(v.push(e)) =~= removals_of(v).push((e.0, e.1.view())));
}

/// The removals with one more, where there is one.
pub open spec fn removals_with(v: Seq<(u128, NodeVal)>, id: u128, prev: Option<NodeVal>) -> Seq<
    (u128, NodeVal),
> {
    match prev {
        Some(p) => v.push((id, p)),
        None => v,
    }
}

impl PageRun {
    /// The deliveries that are counted: each of them once at most.
    pub open spec fn counted(&self) -> int {
        self.stats.written + self.stats.adopted + self.stats.removed + self.stats.parked
    }

    /// The deliveries that are still to be tried again.
    pub open spec fn waiting(&self) -> int {
        if self.phase == Phase::Retrying {
            self.retries@.len() - self.at
        } else if self.phase == Phase::Finished {
            0
        } else {
            self.retries@.len() as int
        }
    }

    /// The deliveries that were begun.
    pub open spec fn begun(&self) -> int {
        if self.phase == Phase::Writing {
            self.at as int
        } else {
            self.page@.len() as int
        }
    }

    pub open spec fn wf(&self) -> bool {
        &&& self.page@.len() == self.plan@.len()
        &&& self.counted() + self.waiting() <= self.begun() <= self.page@.len()
        &&& self.phase == Phase::Deleting ==> self.at <= self.removals@.len()
        &&& self.phase == Phase::Clearing ==> self.at <= self.dirs@.len()
        &&& forall|k: int| 0 <= k < self.dirs@.len() ==> (#[trigger] self.dirs@[k])@.len() > 0
        &&& self.phase == Phase::Retrying ==> self.at <= self.retries@.len()
        &&& forall|k: int|
            0 <= k < self.retries@.len() ==> (#[trigger] self.retries@[k]).at < self.page@.len()
                && self.plan@[self.retries@[k].at as int].view() is Put
    }

    /// The index is true to the nodes, and no node is both materialized and held back.
    pub open spec fn sound(&self) -> bool {
        &&& coherent(self.idx.view(), self.state.nodes_v())
        &&& disjoint(self.state.nodes_v(), self.state.parks_v())
    }

    /// Everything but the state, the index and the counters is as it was.
    pub open spec fn same_page(&self, o: &PageRun) -> bool {
        &&& self.owned == o.owned
        &&& self.ws == o.ws
        &&& self.page == o.page
        &&& self.plan == o.plan
    }

    /// The delivery that is being written.
    pub open spec fn here(&self) -> DeliveredVal {
        self.page@[self.at as int].view()
    }

    /// What is to become of it.
    pub open spec fn disp(&self) -> DispVal {
        self.plan@[self.at as int].view()
    }

    /// The ledger has taken note of the delivery that is being written.
    pub open spec fn noted(&self) -> bool {
        self.state.ledger@.contains(self.here().id) == !self.here().trashed
    }

    /// The ledger after a delivery: it holds what is live.
    pub open spec fn ledger_after(&self) -> Set<u128> {
        if self.here().trashed {
            self.state.ledger@.remove(self.here().id)
        } else {
            self.state.ledger@.insert(self.here().id)
        }
    }
}

/// The park of a delivery.
pub open spec fn park_of(class: ParkClass, reason: Seq<char>, path: Seq<char>) -> ParkVal {
    ParkVal { class, reason, server_path: path }
}

/// Begin to carry out a page that was planned. `state` is the state of the workspace before it.
pub fn apply_page(state: WsState, idx: ClaimIndex, ws: u128, page: Vec<Delivered>, plan: Vec<Disp>) -> (r:
    PageRun)
    requires
        page@.len() == plan@.len(),
    ensures
        r.wf(),
        r.state == state,
        r.idx == idx,
        r.ws == ws,
        r.page == page,
        r.plan == plan,
        r.phase == Phase::Writing,
        r.at == 0,
        r.owned@.dom() == owned_folds(state.nodes_v()),
        r.removals@.len() == 0,
        r.dirs@.len() == 0,
        r.retries@.len() == 0,
        r.counted() == 0,
        r.stats.pending_dir_removals@.len() == 0,
        on_course(
            r,
            (Start { nodes: state.nodes_v(), ledger: state.ledger@, parks: state.parks_v() }),
        ),
{
    let owned = owned_locals(&state);
    let run = PageRun {
        state,
        idx,
        owned,
        ws,
        page,
        plan,
        phase: Phase::Writing,
        at: 0,
        removals: Vec::new(),
        dirs: Vec::new(),
        retries: Vec::new(),
        stats: ApplyStats {
            written: 0,
            adopted: 0,
            removed: 0,
            parked: 0,
            pending_dir_removals: Vec::new(),
        },
    };
    proof {
        lemma_begins_on_course(run);
    }
    run
}

/// What the begin of a delivery comes to: the ledger takes note of it, and unless it is to be
/// materialized it is settled.
pub open spec fn delivery_begun(o: PageRun, n: PageRun, a: Action) -> bool {
    &&& n.phase == Phase::Writing
    &&& n.dirs == o.dirs
    &&& n.retries == o.retries
    &&& n.state.ledger@ == o.ledger_after()
    &&& ({
        let d = o.here();
        let before = o.state;
        let after = n.state;
        let prev = node_at(before.nodes_v(), d.id);
        match o.disp() {
            DispVal::LedgerOnly => {
                &&& a is Pass
                &&& n.at == o.at + 1
                &&& after.nodes_v() == before.nodes_v()
                &&& after.parks_v() == before.parks_v().remove(d.id)
                &&& n.idx == o.idx
                &&& n.removals == o.removals
                &&& n.stats == o.stats
            },
            DispVal::Remove => {
                &&& a is Pass
                &&& n.at == o.at + 1
                &&& after.nodes_v() == before.nodes_v().remove(d.id)
                &&& after.parks_v() == before.parks_v().remove(d.id)
                &&& n.idx.view() == released_opt(
                    o.idx.view(),
                    prev,
                    d.id,
                )
                &&& removals_of(n.removals@) == removals_with(
                    removals_of(o.removals@),
                    d.id,
                    prev,
                )
                &&& n.stats == (ApplyStats {
                    removed: (o.stats.removed + if prev is Some {
                        1int
                    } else {
                        0
                    }) as usize,
                    ..o.stats
                })
            },
            DispVal::Park { class, reason } => {
                &&& a is Pass
                &&& n.at == o.at + 1
                &&& after.nodes_v() == before.nodes_v().remove(d.id)
                &&& after.parks_v() == before.parks_v().insert(
                    d.id,
                    park_of(class, reason, d.path),
                )
                &&& n.idx.view() == released_opt(
                    o.idx.view(),
                    prev,
                    d.id,
                )
                &&& removals_of(n.removals@) == removals_with(
                    removals_of(o.removals@),
                    d.id,
                    prev,
                )
                &&& n.stats == (ApplyStats {
                    parked: (o.stats.parked + 1) as usize,
                    ..o.stats
                })
            },
            DispVal::Put { .. } => {
                &&& a matches Action::Put(k) && k == o.at
                &&& n.at == o.at
                &&& after.nodes_v() == before.nodes_v()
                &&& after.parks_v() == before.parks_v()
                &&& n.idx == o.idx
                &&& n.removals == o.removals
                &&& n.stats == o.stats
            },
        }
    })
}

/// What the next former materialization comes to: nothing, a directory for later, or a file to
/// delete.
pub open spec fn delete_decided(o: PageRun, n: PageRun, a: Action) -> bool {
    &&& n.phase == Phase::Deleting
    &&& n.at == o.at + 1
    &&& ({
        let gone = removal_of(
            o.idx.view(),
            o.ws,
            o.removals@[o.at as int].1.view(),
        );
        match gone {
            RemovalVal::Keep => a is Pass && n.dirs == o.dirs,
            RemovalVal::Dir(rel) => a is Pass && strs(n.dirs@) == strs(
                o.dirs@,
            ).push(rel),
            _ => (a matches Action::Delete(x) && x.view() == gone) && n.dirs == o.dirs,
        }
    })
}

impl PageRun {
    /// Untrack a node and keep its former materialization for deletion.
    fn retire(&mut self, id: u128) -> (r: bool)
        ensures
            final(self).same_page(old(self)),
            final(self).phase == old(self).phase,
            final(self).at == old(self).at,
            final(self).dirs == old(self).dirs,
            final(self).retries == old(self).retries,
            final(self).stats == old(self).stats,
            final(self).state.nodes_v() == old(self).state.nodes_v().remove(id),
            final(self).state.ledger@ == old(self).state.ledger@,
            final(self).state.parks_v() == old(self).state.parks_v(),
            final(self).idx.view() == released_opt(
                old(self).idx.view(),
                node_at(old(self).state.nodes_v(), id),
                id,
            ),
            removals_of(final(self).removals@) == removals_with(
                removals_of(old(self).removals@),
                id,
                node_at(old(self).state.nodes_v(), id),
            ),
            r == old(self).state.nodes_v().dom().contains(id),
    {
        match untrack_node(&mut self.state, &mut self.idx, id) {
            Some(prev) => {
                proof {
                    lemma_removals_push(self.removals@, (id, prev));
                }
                self.removals.push((id, prev));
                true
            },
            None => false,
        }
    }

    /// Begin the next delivery of the page. All but the ones that are to be materialized are
    /// settled here.
    fn begin_delivery(&mut self) -> (a: Action)
        requires
            old(self).wf(),
            old(self).phase == Phase::Writing,
            old(self).at < old(self).page@.len(),
        ensures
            final(self).wf(),
            final(self).same_page(old(self)),
            final(self).phase == Phase::Writing,
            final(self).dirs == old(self).dirs,
            final(self).retries == old(self).retries,
            final(self).state.ledger@ == old(self).ledger_after(),
            delivery_begun(*old(self), *final(self), a),
            old(self).sound() ==> final(self).sound(),
            forall|s: Start| #[trigger] on_course(*old(self), s) ==> on_course(*final(self), s),
    {
        let n: usize = self.page.len();
        let at: usize = self.at;
        assert(at < n);
        let id: u128 = self.page[at].id;
        proof {
            if self.sound() {
                untracking_keeps_claims_coherent(self.idx.view(), self.state.nodes_v(), id);
            }
        }
        if self.page[at].trashed {
            self.state.ledger.remove(&id);
        } else {
            self.state.ledger.insert(id);
        }
        assert(self.state.nodes_v() =~= old(self).state.nodes_v());
        assert(self.state.parks_v() =~= old(self).state.parks_v());
        assert(self.state.ledger@ =~= old(self).ledger_after());
        let a: Action = match &self.plan[at] {
            Disp::LedgerOnly => {
                self.state.drop_park(id);
                self.at = at + 1;
                Action::Pass
            },
            Disp::Remove => {
                self.state.drop_park(id);
                if self.retire(id) {
                    self.stats.removed = self.stats.removed + 1;
                }
                self.at = at + 1;
                Action::Pass
            },
            Disp::Park { class, reason } => {
                let park = Park {
                    class: *class,
                    reason: reason.clone(),
                    server_path: self.page[at].path.clone(),
                };
                self.retire(id);
                self.state.put_park(id, park);
                self.stats.parked = self.stats.parked + 1;
                self.at = at + 1;
                Action::Pass
            },
            Disp::Put { .. } => Action::Put(at),
        };
        proof {
            assert forall|s: Start| #[trigger] on_course(*old(self), s) implies on_course(
                *self,
                s,
            ) by {
                lemma_note_taken(*old(self), s);
                assert forall|j: int| j != at && awaited(*old(self), j) implies #[trigger] awaited(
                    *self,
                    j,
                ) by {
                    let r = choose|r: int|
                        first_waiting(*old(self)) <= r < old(self).retries@.len() && (
                        #[trigger] old(self).retries@[r]).at == j;
                    assert(self.retries@[r].at == j);
                }
                lemma_step_keeps_course(*old(self), *self, s, at as int);
            }
        }
        a
    }

    /// Remember a node that was materialized, in place of whatever it was before.
    fn record(&mut self, k: usize)
        requires
            k < old(self).page@.len() == old(self).plan@.len(),
            old(self).plan@[k as int].view() is Put,
        ensures
            final(self).same_page(old(self)),
            final(self).phase == old(self).phase,
            final(self).at == old(self).at,
            final(self).dirs == old(self).dirs,
            final(self).retries == old(self).retries,
            final(self).removals == old(self).removals,
            final(self).stats == old(self).stats,
            final(self).state.ledger@ == old(self).state.ledger@,
            ({
                let d = old(self).page@[k as int].view();
                let n = node_of(d, old(self).plan@[k as int].view());
                &&& final(self).state.parks_v() == old(self).state.parks_v().remove(d.id)
                &&& final(self).state.nodes_v() == old(self).state.nodes_v().insert(d.id, n)
                &&& final(self).idx.view() == claimed(
                    released_opt(
                        old(self).idx.view(),
                        node_at(old(self).state.nodes_v(), d.id),
                        d.id,
                    ),
                    n,
                    d.id,
                )
            }),
    {
        let id: u128 = self.page[k].id;
        self.state.drop_park(id);
        if let Disp::Put { kind, local, text, marker } = &self.plan[k] {
            let sha: String = match *kind {
                TrackedKind::Folder => String::new(),
                _ => sha_hex(text.as_str().as_bytes()),
            };
            let n = NodeState {
                server_path: self.page[k].path.clone(),
                local: local.copy(),
                kind: *kind,
                rev: self.page[k].rev,
                content_sha256: sha,
                marker: copy_opt_spot(marker),
            };
            track_node(&mut self.state, &mut self.idx, id, n);
        }
    }

    /// Neither remembering a delivery as materialized nor letting go of it does harm.
    proof fn lemma_stays_sound(&self, k: int)
        ensures
            self.sound() ==> {
                let d = self.page@[k].view();
                let n = node_of(d, self.plan@[k].view());
                let left = released_opt(self.idx.view(), node_at(self.state.nodes_v(), d.id), d.id);
                &&& coherent(claimed(left, n, d.id), self.state.nodes_v().insert(d.id, n))
                &&& coherent(left, self.state.nodes_v().remove(d.id))
            },
    {
        if self.sound() {
            let d = self.page@[k].view();
            let n = node_of(d, self.plan@[k].view());
            tracking_keeps_claims_coherent(self.idx.view(), self.state.nodes_v(), d.id, n);
            untracking_keeps_claims_coherent(self.idx.view(), self.state.nodes_v(), d.id);
        }
    }

    /// Where a delivery of the page is materialized. `None` for one that is not, and for a
    /// marker path that leaves the workspace's own directory.
    pub fn put_place(&self, k: usize) -> (r: Option<Place>)
        requires
            k < self.plan@.len(),
        ensures
            opt_place(r) == place_of(self.plan@[k as int].view(), self.ws),
    {
        match &self.plan[k] {
            Disp::Put { kind: TrackedKind::Attachment, marker, .. } => match marker {
                Some(m) => if starts_with(m.path.as_str(), ".docli/markers/") {
                    match relocated_leaf(m.path.as_str(), self.ws) {
                        Some(leaf) => Some(Place::Marker(leaf)),
                        None => None,
                    }
                } else {
                    Some(Place::Mount(m.path.clone()))
                },
                None => None,
            },
            Disp::Put { local, .. } => Some(Place::Mount(local.path.clone())),
            _ => None,
        }
    }

    fn ours(&self, fold: &str) -> (r: bool)
        ensures
            r == (self.idx.view().dom().contains(fold@) || self.owned@.dom().contains(fold@)),
    {
        self.idx.owner(fold).is_some() || self.owned.contains_key(fold)
    }

    /// Decide what is to be done at the place of a delivery, given what was found there.
    pub fn perform_put(&self, k: usize, seen: &Seen) -> (r: Option<PutStep>)
        requires
            k < self.plan@.len(),
        ensures
            (match r {
                Some(s) => Some(s.view()),
                None => None,
            }) == put_step(
                self.plan@[k as int].view(),
                self.idx.view(),
                self.owned@.dom(),
                *seen,
            ),
    {
        match &self.plan[k] {
            Disp::Put { kind, local, marker, .. } => match *kind {
                TrackedKind::Folder => {
                    let owned = self.ours(local.fold.as_str());
                    Some(make_folder(owned, local.path.as_str(), seen))
                },
                TrackedKind::Note => {
                    let owned = self.ours(local.fold.as_str());
                    Some(write_tracked(owned, local.path.as_str(), seen))
                },
                TrackedKind::Attachment => match marker {
                    Some(m) => if starts_with(m.path.as_str(), ".docli/markers/") {
                        Some(PutStep::Overwrite)
                    } else {
                        let owned = self.ours(m.fold.as_str());
                        Some(write_tracked(owned, m.path.as_str(), seen))
                    },
                    None => None,
                },
            },
            _ => None,
        }
    }

    /// Take in what came of a delivery on disk.
    pub fn put_done(&mut self, outcome: WriteOutcome)
        requires
            old(self).wf(),
            old(self).phase == Phase::Writing,
            old(self).at < old(self).page@.len(),
            old(self).disp() is Put,
            old(self).noted(),
        ensures
            final(self).wf(),
            final(self).same_page(old(self)),
            final(self).phase == Phase::Writing,
            final(self).at == old(self).at + 1,
            final(self).dirs == old(self).dirs,
            final(self).state.ledger@ == old(self).state.ledger@,
            old(self).sound() ==> final(self).sound(),
            forall|s: Start| #[trigger] on_course(*old(self), s) ==> on_course(*final(self), s),
            ({
                let d = old(self).here();
                let disp = old(self).disp();
                let before = old(self).state;
                let after = final(self).state;
                let prev = node_at(before.nodes_v(), d.id);
                match outcome.view() {
                    OutcomeVal::InTheWay => {
                        &&& after.nodes_v() == before.nodes_v()
                        &&& after.parks_v() == before.parks_v()
                        &&& final(self).idx == old(self).idx
                        &&& final(self).removals == old(self).removals
                        &&& final(self).stats == old(self).stats
                        &&& final(self).retries@.len() == old(self).retries@.len() + 1
                        &&& final(self).retries@.drop_last() == old(self).retries@
                        &&& final(self).retries@.last().at == old(self).at
                        &&& opt_node(final(self).retries@.last().prev) == prev
                    },
                    OutcomeVal::Parked(reason) => {
                        &&& after.nodes_v() == before.nodes_v().remove(d.id)
                        &&& after.parks_v() == before.parks_v().insert(
                            d.id,
                            park_of(ParkClass::Transient, reason, d.path),
                        )
                        &&& final(self).idx.view() == released_opt(
                            old(self).idx.view(),
                            prev,
                            d.id,
                        )
                        &&& removals_of(final(self).removals@) == removals_with(
                            removals_of(old(self).removals@),
                            d.id,
                            prev,
                        )
                        &&& final(self).retries == old(self).retries
                        &&& final(self).stats == (ApplyStats {
                            parked: (old(self).stats.parked + 1) as usize,
                            ..old(self).stats
                        })
                    },
                    ok => {
                        let n = node_of(d, disp);
                        &&& after.nodes_v() == before.nodes_v().insert(d.id, n)
                        &&& after.parks_v() == before.parks_v().remove(d.id)
                        &&& final(self).idx.view() == claimed(
                            released_opt(old(self).idx.view(), prev, d.id),
                            n,
                            d.id,
                        )
                        &&& removals_of(final(self).removals@) == removals_with(
                            removals_of(old(self).removals@),
                            d.id,
                            if prev is Some && has_moved(prev->0, disp->local, disp->marker) {
                                prev
                            } else {
                                None
                            },
                        )
                        &&& final(self).retries == old(self).retries
                        &&& final(self).stats == (if ok is Written {
                            ApplyStats {
                                written: (old(self).stats.written + 1) as usize,
                                ..old(self).stats
                            }
                        } else {
                            ApplyStats {
                                adopted: (old(self).stats.adopted + 1) as usize,
                                ..old(self).stats
                            }
                        })
                    },
                }
            }),
    {
        let n: usize = self.page.len();
        let at: usize = self.at;
        assert(at < n);
        let id: u128 = self.page[at].id;
        proof {
            self.lemma_stays_sound(at as int);
        }
        let prev: Option<NodeState> = match self.state.node(id) {
            Some(n) => Some(n.copy()),
            None => None,
        };
        let adopted: bool = match outcome {
            WriteOutcome::InTheWay => {
                let ghost before = self.retries@;
                self.retries.push(Retry { at, prev });
                assert(self.retries@.drop_last() =~= before);
                self.at = at + 1;
                proof {
                    assert(self.retries@.last().at == at);
                    lemma_put_keeps_course(*old(self), *self);
                }
                return ;
            },
            WriteOutcome::Parked(reason) => {
                let park = Park {
                    class: ParkClass::Transient,
                    reason,
                    server_path: self.page[at].path.clone(),
                };
                self.retire(id);
                self.state.put_park(id, park);
                self.stats.parked = self.stats.parked + 1;
                self.at = at + 1;
                proof {
                    lemma_put_keeps_course(*old(self), *self);
                }
                return ;
            },
            WriteOutcome::Written => false,
            WriteOutcome::Adopted => true,
        };
        self.record(at);
        if let Some(p) = prev {
            let gone: bool = match &self.plan[at] {
                Disp::Put { local, marker, .. } => moved(&p, local, marker),
                _ => false,
            };
            if gone {
                proof {
                    lemma_removals_push(self.removals@, (id, p));
                }
                self.removals.push((id, p));
            }
        }
        if adopted {
            self.stats.adopted = self.stats.adopted + 1;
        } else {
            self.stats.written = self.stats.written + 1;
        }
        self.at = at + 1;
        proof {
            lemma_put_keeps_course(*old(self), *self);
        }
    }

    /// Decide on the next former materialization. Directories are only collected here.
    fn next_delete(&mut self) -> (a: Action)
        requires
            old(self).wf(),
            old(self).phase == Phase::Deleting,
            old(self).at < old(self).removals@.len(),
        ensures
            final(self).wf(),
            final(self).same_page(old(self)),
            final(self).phase == Phase::Deleting,
            final(self).at == old(self).at + 1,
            final(self).state == old(self).state,
            final(self).idx == old(self).idx,
            final(self).removals == old(self).removals,
            final(self).retries == old(self).retries,
            final(self).stats == old(self).stats,
            delete_decided(*old(self), *final(self), a),
    {
        broadcast use crate::text::lemma_strs_push;

        let n: usize = self.removals.len();
        let at: usize = self.at;
        assert(at < n);
        self.at = at + 1;
        match remove_materialization(&self.idx, self.ws, &self.removals[at].1) {
            Removal::Keep => Action::Pass,
            Removal::Dir(rel) => {
                self.dirs.push(rel);
                Action::Pass
            },
            other => Action::Delete(other),
        }
    }

    /// Take the next step of the page.
    pub fn advance(&mut self) -> (a: Action)
        requires
            old(self).wf(),
        ensures
            final(self).wf(),
            final(self).same_page(old(self)),
            old(self).sound() ==> final(self).sound(),
            forall|s: Start| #[trigger] on_course(*old(self), s) ==> on_course(*final(self), s),
            a is Put && final(self).phase == Phase::Writing ==> final(self).noted(),
            // Nothing is deleted before everything is written, and nothing is tried again before
            // the deletions.
            match old(self).phase {
                Phase::Writing => if old(self).at < old(self).page@.len() {
                    delivery_begun(*old(self), *final(self), a)
                } else {
                    &&& final(self).phase == Phase::Deleting
                    &&& a is Pass
                    &&& final(self).at == 0
                    &&& final(self).state == old(self).state
                    &&& final(self).idx == old(self).idx
                    &&& final(self).removals == old(self).removals
                    &&& final(self).dirs == old(self).dirs
                    &&& final(self).retries == old(self).retries
                    &&& final(self).stats == old(self).stats
                },
                Phase::Deleting => if old(self).at < old(self).removals@.len() {
                    delete_decided(*old(self), *final(self), a)
                } else {
                    &&& final(self).phase == Phase::Clearing
                    &&& a is Pass
                    &&& final(self).at == 0
                    &&& strs(final(self).dirs@) == deepest_first(strs(old(self).dirs@))
                },
                Phase::Clearing => if old(self).at < old(self).dirs@.len() {
                    let rel = old(self).dirs@[old(self).at as int]@;
                    &&& final(self).phase == Phase::Clearing
                    &&& final(self).at == old(self).at + 1
                    &&& final(self).dirs == old(self).dirs
                    &&& a matches Action::RemoveDir(d) && d@ == rel
                } else {
                    final(self).phase == Phase::Retrying && a is Pass && final(self).at == 0
                },
                Phase::Retrying => if old(self).at < old(self).retries@.len() {
                    &&& final(self).phase == Phase::Retrying
                    &&& final(self).at == old(self).at
                    &&& a matches Action::Put(k) && k == old(self).retries@[old(self).at as int].at
                } else {
                    final(self).phase == Phase::Finished && a is Done
                },
                Phase::Finished => final(self).phase == Phase::Finished && a is Done,
            },
            old(self).phase != Phase::Writing ==> {
                &&& final(self).state == old(self).state
                &&& final(self).idx == old(self).idx
                &&& final(self).removals == old(self).removals
                &&& final(self).retries == old(self).retries
                &&& final(self).stats == old(self).stats
            },
    {
        if self.phase == Phase::Writing && self.at < self.page.len() {
            return self.begin_delivery();
        }
        let a: Action = match self.phase {
            Phase::Writing => {
                self.phase = Phase::Deleting;
                self.at = 0;
                Action::Pass
            },
            Phase::Deleting => {
                if self.at < self.removals.len() {
                    self.next_delete()
                } else {
                    let sorted = sort_dirs(&self.dirs);
                    proof {
                        lemma_sorting_keeps(self.dirs@, sorted@);
                    }
                    self.dirs = sorted;
                    self.phase = Phase::Clearing;
                    self.at = 0;
                    Action::Pass
                }
            },
            Phase::Clearing => {
                let n: usize = self.dirs.len();
                let at: usize = self.at;
                if at < n {
                    self.at = at + 1;
                    Action::RemoveDir(self.dirs[at].clone())
                } else {
                    self.phase = Phase::Retrying;
                    self.at = 0;
                    Action::Pass
                }
            },
            Phase::Retrying => {
                if self.at < self.retries.len() {
                    Action::Put(self.retries[self.at].at)
                } else {
                    self.phase = Phase::Finished;
                    Action::Done
                }
            },
            Phase::Finished => Action::Done,
        };
        proof {
            lemma_idle_keeps_course(*old(self), *self);
        }
        a
    }

    /// Take note of a directory that could not be removed.
    pub fn dir_kept(&mut self, rel: String)
        requires
            old(self).wf(),
        ensures
            final(self).wf(),
            final(self).same_page(old(self)),
            final(self).phase == old(self).phase,
            final(self).at == old(self).at,
            final(self).state == old(self).state,
            final(self).idx == old(self).idx,
            final(self).removals == old(self).removals,
            final(self).dirs == old(self).dirs,
            final(self).retries == old(self).retries,
            final(self).stats == (ApplyStats {
                pending_dir_removals: final(self).stats.pending_dir_removals,
                ..old(self).stats
            }),
            strs(final(self).stats.pending_dir_removals@) == strs(
                old(self).stats.pending_dir_removals@,
            ).push(rel@),
            forall|s: Start| #[trigger] on_course(*old(self), s) ==> on_course(*final(self), s),
    {
        broadcast use crate::text::lemma_strs_push;

        self.stats.pending_dir_removals.push(rel);
        proof {
            lemma_idle_keeps_course(*old(self), *self);
        }
    }

    /// Take in what came of a delivery that was tried again, and say what is left to delete of
    /// its former materialization.
    pub fn retry_done(&mut self, outcome: WriteOutcome) -> (gone: Removal)
        requires
            old(self).wf(),
            old(self).phase == Phase::Retrying,
            old(self).at < old(self).retries@.len(),
        ensures
            final(self).wf(),
            final(self).same_page(old(self)),
            final(self).phase == Phase::Retrying,
            final(self).at == old(self).at + 1,
            final(self).dirs == old(self).dirs,
            final(self).retries == old(self).retries,
            final(self).state.ledger@ == old(self).state.ledger@,
            old(self).sound() ==> final(self).sound(),
            forall|s: Start| #[trigger] on_course(*old(self), s) ==> on_course(*final(self), s),
            ({
                let k = old(self).retries@[old(self).at as int].at as int;
                let prev = opt_node(old(self).retries@[old(self).at as int].prev);
                let d = old(self).page@[k].view();
                let disp = old(self).plan@[k].view();
                let before = old(self).state;
                let after = final(self).state;
                let held = node_at(before.nodes_v(), d.id);
                match outcome.view() {
                    OutcomeVal::Written | OutcomeVal::Adopted => {
                        let n = node_of(d, disp);
                        &&& after.nodes_v() == before.nodes_v().insert(d.id, n)
                        &&& after.parks_v() == before.parks_v().remove(d.id)
                        &&& final(self).idx.view() == claimed(
                            released_opt(old(self).idx.view(), held, d.id),
                            n,
                            d.id,
                        )
                        &&& gone.view() == (if prev is Some && has_moved(
                            prev->0,
                            disp->local,
                            disp->marker,
                        ) {
                            removal_of(final(self).idx.view(), old(self).ws, prev->0)
                        } else {
                            RemovalVal::Keep
                        })
                        &&& final(self).stats == (if outcome.view() is Written {
                            ApplyStats {
                                written: (old(self).stats.written + 1) as usize,
                                ..old(self).stats
                            }
                        } else {
                            ApplyStats {
                                adopted: (old(self).stats.adopted + 1) as usize,
                                ..old(self).stats
                            }
                        })
                    },
                    blocked => {
                        &&& after.nodes_v() == before.nodes_v().remove(d.id)
                        &&& after.parks_v() == before.parks_v().insert(
                            d.id,
                            park_of(
                                ParkClass::Transient,
                                match blocked {
                                    OutcomeVal::Parked(reason) => reason,
                                    _ => "a directory still occupies "@ + disp->local.path
                                        + " — remove it and run `docli sync --full`"@,
                                },
                                d.path,
                            ),
                        )
                        &&& final(self).idx.view() == released_opt(
                            old(self).idx.view(),
                            held,
                            d.id,
                        )
                        &&& gone.view() == (match held {
                            Some(p) => removal_of(final(self).idx.view(), old(self).ws, p),
                            None => RemovalVal::Keep,
                        })
                        &&& final(self).stats == (ApplyStats {
                            parked: (old(self).stats.parked + 1) as usize,
                            ..old(self).stats
                        })
                    },
                }
            }),
    {
        let n: usize = self.page.len();
        let waiting: usize = self.retries.len();
        let at: usize = self.at;
        assert(at < waiting);
        assert(self.begun() == n);
        let k: usize = self.retries[at].at;
        let id: u128 = self.page[k].id;
        proof {
            self.lemma_stays_sound(k as int);
        }
        self.at = at + 1;
        let gone: Removal = match outcome {
            WriteOutcome::Written | WriteOutcome::Adopted => {
                self.record(k);
                if let WriteOutcome::Adopted = outcome {
                    self.stats.adopted = self.stats.adopted + 1;
                } else {
                    self.stats.written = self.stats.written + 1;
                }
                match (&self.retries[at].prev, &self.plan[k]) {
                    (Some(p), Disp::Put { local, marker, .. }) => if moved(p, local, marker) {
                        remove_materialization(&self.idx, self.ws, p)
                    } else {
                        Removal::Keep
                    },
                    _ => Removal::Keep,
                }
            },
            blocked => {
                let reason: String = match blocked {
                    WriteOutcome::Parked(r) => r,
                    _ => {
                        let place: &str = match &self.plan[k] {
                            Disp::Put { local, .. } => local.path.as_str(),
                            _ => "",
                        };
                        cat3(
                            "a directory still occupies ",
                            place,
                            " — remove it and run `docli sync --full`",
                        )
                    },
                };
                let gone: Removal = match untrack_node(&mut self.state, &mut self.idx, id) {
                    Some(p) => remove_materialization(&self.idx, self.ws, &p),
                    None => Removal::Keep,
                };
                let park = Park {
                    class: ParkClass::Transient,
                    reason,
                    server_path: self.page[k].path.clone(),
                };
                self.state.put_park(id, park);
                self.stats.parked = self.stats.parked + 1;
                gone
            },
        };
        proof {
            lemma_retry_keeps_course(*old(self), *self);
        }
        gone
    }
} // impl PageRun

proof fn lemma_put_keeps_course(o: PageRun, n: PageRun)
    requires
        o.wf(),
        o.phase == Phase::Writing,
        o.at < o.page@.len(),
        o.disp() is Put,
        o.noted(),
        n.wf(),
        n.same_page(&o),
        n.phase == Phase::Writing,
        n.at == o.at + 1,
        n.state.ledger@ == o.state.ledger@,
        others_stay(o, n, o.at as int),
        n.retries == o.retries || (n.retries@.drop_last() == o.retries@ && n.retries@.len()
            == o.retries@.len() + 1 && n.retries@.last().at == o.at),
        if n.retries == o.retries {
            (node_for(n, o.at as int) is None || node_for(n, o.at as int) == Some(
                node_of(o.here(), o.disp()),
            )) && parked_as(n, o.at as int)
        } else {
            node_for(n, o.at as int) == node_for(o, o.at as int)
        },
    ensures
        forall|s: Start| #[trigger] on_course(o, s) ==> on_course(n, s),
{
    let k = o.at as int;
    assert(o.ledger_after() =~= o.state.ledger@);
    assert forall|j: int| awaited(o, j) implies #[trigger] awaited(n, j) by {
        let r = choose|r: int|
            first_waiting(o) <= r < o.retries@.len() && (#[trigger] o.retries@[r]).at == j;
        assert(n.retries@[r] == o.retries@[r]);
    }
    if n.retries != o.retries {
        assert(n.retries@[n.retries@.len() - 1].at == k);
        assert(awaited(n, k));
    }
    assert forall|s: Start| #[trigger] on_course(o, s) implies on_course(n, s) by {
        lemma_note_taken(o, s);
        lemma_step_keeps_course(o, n, s, k);
    }
}

proof fn lemma_idle_keeps_course(o: PageRun, n: PageRun)
    requires
        o.wf(),
        n.same_page(&o),
        n.state == o.state,
        n.retries == o.retries,
        n.begun() == o.begun(),
        first_waiting(n) == first_waiting(o) || first_waiting(o) >= o.retries@.len(),
    ensures
        forall|s: Start| #[trigger] on_course(o, s) ==> on_course(n, s),
{
    assert forall|j: int| awaited(o, j) implies #[trigger] awaited(n, j) by {
        let r = choose|r: int|
            first_waiting(o) <= r < o.retries@.len() && (#[trigger] o.retries@[r]).at == j;
        assert(n.retries@[r].at == j);
    }
    assert forall|s: Start| #[trigger] on_course(o, s) implies on_course(n, s) by {
        lemma_pass_keeps_course(o, n, s);
    }
}

proof fn lemma_retry_keeps_course(o: PageRun, n: PageRun)
    requires
        o.wf(),
        o.phase == Phase::Retrying,
        o.at < o.retries@.len(),
        n.wf(),
        n.same_page(&o),
        n.phase == Phase::Retrying,
        n.at == o.at + 1,
        n.retries == o.retries,
        n.state.ledger@ == o.state.ledger@,
        ({
            let k = o.retries@[o.at as int].at as int;
            &&& others_stay(o, n, k)
            &&& node_for(n, k) is None || node_for(n, k) == Some(
                node_of(o.page@[k].view(), o.plan@[k].view()),
            )
            &&& parked_as(n, k)
        }),
    ensures
        forall|s: Start| #[trigger] on_course(o, s) ==> on_course(n, s),
{
    let k = o.retries@[o.at as int].at as int;
    assert forall|j: int| j != k && awaited(o, j) implies #[trigger] awaited(n, j) by {
        let r = choose|r: int|
            first_waiting(o) <= r < o.retries@.len() && (#[trigger] o.retries@[r]).at == j;
        assert(r != o.at);
        assert(n.retries@[r].at == j);
    }
    assert forall|s: Start| #[trigger] on_course(o, s) implies on_course(n, s) by {
        lemma_step_keeps_course(o, n, s, k);
    }
}

/// No id is both materialized and held back.
pub open spec fn disjoint(nodes: Map<u128, NodeVal>, parks: Map<u128, ParkVal>) -> bool {
    nodes.dom().disjoint(parks.dom())
}

/// Materializing a node takes it out of the parks, and holding one back takes it out of the
/// nodes: an id is never both.
pub proof fn nodes_and_parks_stay_disjoint(
    nodes: Map<u128, NodeVal>,
    parks: Map<u128, ParkVal>,
    id: u128,
    n: NodeVal,
    p: ParkVal,
)
    requires
        disjoint(nodes, parks),
    ensures
        disjoint(nodes.insert(id, n), parks.remove(id)),
        disjoint(nodes.remove(id), parks.insert(id, p)),
        disjoint(nodes.remove(id), parks.remove(id)),
        disjoint(nodes, parks.remove(id)),
{
}

/// A path that a node materializes now is never deleted.
pub proof fn claimed_paths_are_never_deleted(idx: Claims, ws: u128, prev: NodeVal)
    ensures
        removal_of(idx, ws, prev) is Dir || removal_of(idx, ws, prev) is File ==> {
            let spot = if prev.kind == TrackedKind::Attachment {
                prev.marker->0
            } else {
                prev.local
            };
            !idx.dom().contains(spot.fold)
        },
        removal_of(idx, ws, prev) is Marker ==> !idx.dom().contains(prev.marker->0.fold),
{
}

/// A rename that only changes how the same file is spelled deletes nothing.
pub proof fn respelling_deletes_nothing(prev: NodeVal, local: SpotVal, marker: Option<SpotVal>)
    requires
        prev.local.fold == local.fold,
        prev.kind != TrackedKind::Attachment || fold_opt(prev.marker) == fold_opt(marker),
    ensures
        !has_moved(prev, local, marker),
{
}

/// What pruning leaves to delete: the tracked nodes that were not delivered go one after the
/// other, each judged against the claims that are left.
pub open spec fn pruned(
    idx: Claims,
    nodes: Map<u128, NodeVal>,
    ws: u128,
    stale: Seq<u128>,
) -> (Claims, Seq<RemovalVal>)
    decreases stale.len(),
{
    if stale.len() == 0 {
        (idx, Seq::empty())
    } else {
        let before = pruned(idx, nodes, ws, stale.drop_last());
        let id = stale.last();
        match node_at(nodes, id) {
            Some(prev) => {
                let left = released_opt(before.0, Some(prev), id);
                (left, before.1.push(removal_of(left, ws, prev)))
            },
            None => before,
        }
    }
}

/// The ids among `ids` that were not delivered, in that order.
pub open spec fn stale_among(ids: Seq<u128>, delivered: Set<u128>) -> Seq<u128>
    decreases ids.len(),
{
    if ids.len() == 0 {
        Seq::empty()
    } else {
        let before = stale_among(ids.drop_last(), delivered);
        if delivered.contains(ids.last()) {
            before
        } else {
            before.push(ids.last())
        }
    }
}

pub open spec fn gone_of(v: Seq<Removal>) -> Seq<RemovalVal> {
    Seq::new(v.len(), |i: int| v[i].view())
}

/// After a replay from the beginning, drop everything that it did not deliver, and say what is
/// left to delete.
pub fn prune_undelivered(state: &mut WsState, ws: u128, delivered: &BTreeSet<u128>) -> (r: Vec<Removal>)
    ensures
        final(state).nodes_v() == old(state).nodes_v().restrict(delivered@),
        final(state).ledger@ == old(state).ledger@.difference(
            old(state).nodes_v().dom().difference(delivered@),
        ),
        final(state).parks_v() == old(state).parks_v().remove_keys(
            old(state).nodes_v().dom().difference(delivered@),
        ),
        gone_of(r@) == pruned(
            index_of(old(state).nodes_v(), old(state).ledger@),
            old(state).nodes_v(),
            ws,
            stale_among(roll(old(state).nodes_v().dom()), delivered@),
        ).1,
{
    let ids = state.node_ids();
    let mut idx = build_claim_index(state);
    let ghost idx0 = idx.view();
    let ghost nodes0 = state.nodes_v();
    let ghost ledger0 = state.ledger@;
    let ghost parks0 = state.parks_v();
    let mut out: Vec<Removal> = Vec::new();
    let ghost mut stale: Seq<u128> = stale_among(ids@.take(0), delivered@);
    assert(gone_of(out@) =~= Seq::<RemovalVal>::empty());
    for i in 0..ids.len()
        invariant
            is_roll(ids@, nodes0.dom()),
            stale == stale_among(ids@.take(i as int), delivered@),
            forall|id: u128| #[trigger]
                stale.contains(id) <==> !delivered@.contains(id) && exists|j: int|
                    0 <= j < i && #[trigger] ids@[j] == id,
            forall|id: u128| #[trigger]
                state.nodes_v().dom().contains(id) <==> nodes0.dom().contains(id)
                    && !stale.contains(id),
            forall|id: u128| #[trigger]
                state.nodes_v().dom().contains(id) ==> state.nodes_v()[id] == nodes0[id],
            forall|id: u128| #[trigger]
                state.ledger@.contains(id) <==> ledger0.contains(id) && !stale.contains(id),
            forall|id: u128| #[trigger]
                state.parks_v().dom().contains(id) <==> parks0.dom().contains(id)
                    && !stale.contains(id),
            forall|id: u128| #[trigger]
                state.parks_v().dom().contains(id) ==> state.parks_v()[id] == parks0[id],
            (idx.view(), gone_of(out@)) == pruned(idx0, nodes0, ws, stale),
    {
        let id: u128 = ids[i];
        assert(ids@.contains(id));
        assert(ids@.take(i + 1).drop_last() =~= ids@.take(i as int));
        let ghost before = stale;
        proof {
            stale = stale_among(ids@.take(i + 1), delivered@);
        }
        if !delivered.contains(&id) {
            let ghost out0 = out@;
            assert(!before.contains(id)) by {
                if before.contains(id) {
                    let j = choose|j: int| 0 <= j < i && #[trigger] ids@[j] == id;
                    assert(ids@[j] < ids@[i as int]);
                }
            }
            if let Some(prev) = untrack_node(state, &mut idx, id) {
                out.push(remove_materialization(&idx, ws, &prev));
                assert(gone_of(out@) =~= gone_of(out0).push(out@.last().view()));
            }
            state.ledger.remove(&id);
            state.drop_park(id);
            proof {
                assert(stale.drop_last() =~= before);
                assert forall|x: u128| #[trigger] stale.contains(x) <==> before.contains(x) || x
                    == id by {
                    if before.contains(x) {
                        let w = choose|w: int| 0 <= w < before.len() && before[w] == x;
                        assert(stale[w] == x);
                    }
                    if x == id {
                        assert(stale[before.len() as int] == id);
                    }
                }
                assert forall|x: u128| #[trigger] stale.contains(x) <==> !delivered@.contains(x)
                    && exists|j: int| 0 <= j < i + 1 && #[trigger] ids@[j] == x by {
                    if before.contains(x) {
                        let j = choose|j: int| 0 <= j < i && #[trigger] ids@[j] == x;
                        assert(ids@[j] == x);
                    }
                    if x == id {
                        assert(ids@[i as int] == x);
                    }
                }
            }
        }
    }
    proof {
        assert(ids@.take(ids@.len() as int) =~= ids@);
        assert forall|id: u128| #[trigger] stale.contains(id) <==> nodes0.dom().contains(id)
            && !delivered@.contains(id) by {
            if nodes0.dom().contains(id) && !delivered@.contains(id) {
                assert(ids@.contains(id));
                let j = choose|j: int| 0 <= j < ids@.len() && ids@[j] == id;
                assert(ids@[j] == id);
            }
            if stale.contains(id) {
                let j = choose|j: int| 0 <= j < ids@.len() && #[trigger] ids@[j] == id;
                assert(ids@.contains(id));
            }
        }
        let gone = nodes0.dom().difference(delivered@);
        assert forall|id: u128| #[trigger] gone.contains(id) <==> stale.contains(id) by {
        }
        assert(state.nodes_v() =~= nodes0.restrict(delivered@));
        assert(state.ledger@ =~= ledger0.difference(gone));
        assert(state.parks_v() =~= parks0.remove_keys(gone));
    }
    out
}

} // verus!
