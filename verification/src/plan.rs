//! Which deliveries of a page collide, and which fall with a folder that is held back.
//!
//! Earlier claimants win: nodes that are already materialized first, then the page in its order.
//! The verdict is derived from scratch each round against the parks of the round before, so that
//! the claim of a delivery which a later round parks is given up again.

use vstd::prelude::*;

use std::collections::BTreeMap;

use vstd::hash_map::StringHashMap;

use crate::apply::page_of;
use crate::apply::plan_of;
use crate::apply::Claims;
use crate::apply::Delivered;
use crate::apply::DeliveredVal;
use crate::apply::Disp;
use crate::apply::DispVal;
use crate::ids::id_text;
use crate::ids::print_id;
use crate::localpath::in_scope;
use crate::localpath::scope_relative;
use crate::localpath::FsRules;
use crate::state::NodeVal;
use crate::state::ParkClass;
use crate::state::ParkVal;
use crate::state::Spot;
use crate::state::SpotVal;
use crate::state::lemma_roll_exists;
use crate::state::roll;
use crate::state::WsState;
use crate::text::begins;
use crate::text::cat2;
use crate::text::cat3;
use crate::text::cat5;
use crate::text::clone_strs;
use crate::text::opt_ref;
use crate::text::starts_with;
use crate::text::strs;

verus! {

broadcast use vstd::std_specs::btree::group_btree_axioms;

/// Why a delivery is held back that would be materialized on its own.
#[derive(Debug, Clone, Copy, PartialEq, Eq, Structural)]
pub enum Conflict {
    /// It lies inside a folder that is held back.
    InParkedFolder,
    /// Its local path is another node's.
    Path(u128),
    /// Its local path folds onto another node's.
    Fold(u128),
}

/// The verdicts of a round: for each id that is held back, why, and which delivery said so.
pub type Verdicts = Map<u128, (Conflict, usize)>;

pub open spec fn conflict_text(c: Conflict, local: Seq<char>) -> Seq<char> {
    match c {
        Conflict::InParkedFolder =>
            "inside a parked folder — healed by a server-side rename of the ancestor"@,
        Conflict::Path(o) => "local path "@ + local
            + " is already the projection of another node ("@ + id_text(o) + ")"@,
        Conflict::Fold(o) => "folds onto the same file as another node ("@ + id_text(o) + ")"@,
    }
}

fn conflict_reason(c: Conflict, local: &str) -> (r: String)
    ensures
        r@ == conflict_text(c, local@),
{
    match c {
        Conflict::InParkedFolder =>
            "inside a parked folder — healed by a server-side rename of the ancestor".to_owned(),
        Conflict::Path(o) => {
            let id = print_id(o);
            cat5(
                "local path ",
                local,
                " is already the projection of another node (",
                id.as_str(),
                ")",
            )
        },
        Conflict::Fold(o) => {
            let id = print_id(o);
            cat3("folds onto the same file as another node (", id.as_str(), ")")
        },
    }
}

/// A materialized node that the page does not deliver.
#[derive(Debug)]
pub struct Incumbent {
    pub spot: Spot,
    pub id: u128,
}

pub open spec fn incumbents_of(v: Seq<Incumbent>) -> Seq<(SpotVal, u128)> {
    Seq::new(v.len(), |i: int| (v[i].spot.view(), v[i].id))
}

pub open spec fn or_insert(m: Claims, k: Seq<char>, v: u128) -> Claims {
    if m.dom().contains(k) {
        m
    } else {
        m.insert(k, v)
    }
}

/// The claims of the incumbents, by path and by fold key.
pub open spec fn seeded(inc: Seq<(SpotVal, u128)>) -> (Claims, Claims)
    decreases inc.len(),
{
    if inc.len() == 0 {
        (Map::empty(), Map::empty())
    } else {
        let before = seeded(inc.drop_last());
        let (spot, id) = inc.last();
        (or_insert(before.0, spot.path, id), or_insert(before.1, spot.fold, id))
    }
}

/// The path inside the mount, or the server path where it is outside.
pub open spec fn rel_of(path: Seq<char>, scope: Option<Seq<char>>) -> Seq<char> {
    match in_scope(path, scope) {
        Some(r) => r,
        None => path,
    }
}

/// The prefix that a folder at this path puts before what lies in it.
pub open spec fn folder_prefix(path: Seq<char>, scope: Option<Seq<char>>) -> Option<Seq<char>> {
    match in_scope(path, scope) {
        Some(rel) => if rel.len() > 0 {
            Some(rel + "/"@)
        } else {
            None
        },
        None => None,
    }
}

/// The prefixes of what was held back before the page, and of the deliveries among the first `n`
/// that are held back.
pub open spec fn prefixes_of(
    durable: Seq<Seq<char>>,
    page: Seq<DeliveredVal>,
    plan: Seq<DispVal>,
    parked: Set<u128>,
    scope: Option<Seq<char>>,
    n: nat,
) -> Seq<Seq<char>>
    decreases n,
{
    if n == 0 {
        durable
    } else {
        let before = prefixes_of(durable, page, plan, parked, scope, (n - 1) as nat);
        let i = n - 1;
        let held = plan[i] is Park || parked.contains(page[i].id);
        match folder_prefix(page[i].path, scope) {
            Some(p) => if held {
                before.push(p)
            } else {
                before
            },
            None => before,
        }
    }
}

pub open spec fn under_any(rel: Seq<char>, prefixes: Seq<Seq<char>>) -> bool {
    exists|k: int| 0 <= k < prefixes.len() && begins(rel, #[trigger] prefixes[k])
}

/// What a round has come to: the claims by path and by fold key, and the verdicts.
pub struct Round {
    pub paths: Claims,
    pub folds: Claims,
    pub out: Verdicts,
}

/// The verdict on one delivery, given what the round has come to.
pub open spec fn conflict_of(
    r: Round,
    prefixes: Seq<Seq<char>>,
    rel: Seq<char>,
    local: SpotVal,
    id: u128,
) -> Option<Conflict> {
    if under_any(rel, prefixes) {
        Some(Conflict::InParkedFolder)
    } else if r.paths.dom().contains(local.path) && r.paths[local.path] != id {
        Some(Conflict::Path(r.paths[local.path]))
    } else if r.folds.dom().contains(local.fold) && r.folds[local.fold] != id {
        Some(Conflict::Fold(r.folds[local.fold]))
    } else {
        None
    }
}

/// The round after the first `n` deliveries.
pub open spec fn round(
    inc: Seq<(SpotVal, u128)>,
    prefixes: Seq<Seq<char>>,
    page: Seq<DeliveredVal>,
    plan: Seq<DispVal>,
    scope: Option<Seq<char>>,
    n: nat,
) -> Round
    decreases n,
{
    if n == 0 {
        Round { paths: seeded(inc).0, folds: seeded(inc).1, out: Map::empty() }
    } else {
        let before = round(inc, prefixes, page, plan, scope, (n - 1) as nat);
        let i = n - 1;
        match plan[i] {
            DispVal::Put { local, .. } => match conflict_of(
                before,
                prefixes,
                rel_of(page[i].path, scope),
                local,
                page[i].id,
            ) {
                Some(c) => Round { out: before.out.insert(page[i].id, (c, i as usize)), ..before },
                None => Round {
                    paths: or_insert(before.paths, local.path, page[i].id),
                    folds: or_insert(before.folds, local.fold, page[i].id),
                    out: before.out,
                },
            },
            _ => before,
        }
    }
}

/// What the page is judged against.
pub struct Ground {
    pub inc: Seq<(SpotVal, u128)>,
    pub durable: Seq<Seq<char>>,
    pub scope: Option<Seq<char>>,
}

/// One whole round against the parks of the round before.
pub open spec fn derive(
    g: Ground,
    page: Seq<DeliveredVal>,
    plan: Seq<DispVal>,
    parked: Set<u128>,
) -> Verdicts {
    round(
        g.inc,
        prefixes_of(g.durable, page, plan, parked, g.scope, page.len()),
        page,
        plan,
        g.scope,
        page.len(),
    ).out
}

/// At most `rounds` rounds, up to one that holds back what the round before did.
pub open spec fn settle(
    g: Ground,
    page: Seq<DeliveredVal>,
    plan: Seq<DispVal>,
    rounds: nat,
    prev: Verdicts,
) -> Verdicts
    decreases rounds,
{
    if rounds == 0 {
        prev
    } else {
        let next = derive(g, page, plan, prev.dom());
        if next.dom() == prev.dom() {
            next
        } else {
            settle(g, page, plan, (rounds - 1) as nat, next)
        }
    }
}

/// The verdicts that stand in the end.
pub open spec fn verdicts(g: Ground, page: Seq<DeliveredVal>, plan: Seq<DispVal>) -> Verdicts {
    settle(g, page, plan, page.len() + 2, Map::empty())
}

/// The local path of a delivery that is to be materialized.
pub open spec fn put_path(d: DispVal) -> Seq<char> {
    match d {
        DispVal::Put { local, .. } => local.path,
        _ => Seq::empty(),
    }
}

/// The plan with every delivery of a held-back id parked.
pub open spec fn with_verdicts(
    page: Seq<DeliveredVal>,
    plan: Seq<DispVal>,
    v: Verdicts,
) -> Seq<DispVal> {
    Seq::new(
        plan.len(),
        |i: int|
            if v.dom().contains(page[i].id) {
                DispVal::Park {
                    class: ParkClass::Lasting,
                    reason: conflict_text(
                        v[page[i].id].0,
                        put_path(plan[v[page[i].id].1 as int]),
                    ),
                }
            } else {
                plan[i]
            },
    )
}

fn any_prefix(rel: &str, prefixes: &Vec<String>) -> (r: bool)
    ensures
        r == under_any(rel@, strs(prefixes@)),
{
    for k in 0..prefixes.len()
        invariant
            forall|j: int| 0 <= j < k ==> !begins(rel@, #[trigger] strs(prefixes@)[j]),
    {
        if starts_with(rel, prefixes[k].as_str()) {
            assert(begins(rel@, strs(prefixes@)[k as int]));
            return true;
        }
    }
    false
}

fn prefix_of(path: &str, scope: Option<&str>) -> (r: Option<String>)
    ensures
        crate::text::opt_str(r) == folder_prefix(path@, opt_ref(scope)),
{
    match scope_relative(path, scope) {
        Some(rel) => if rel.is_empty() {
            None
        } else {
            Some(cat2(rel, "/"))
        },
        None => None,
    }
}

fn held_prefixes(
    durable: &Vec<String>,
    page: &Vec<Delivered>,
    plan: &Vec<Disp>,
    parked: &BTreeMap<u128, (Conflict, usize)>,
    scope: Option<&str>,
) -> (r: Vec<String>)
    requires
        page@.len() == plan@.len(),
    ensures
        strs(r@) == prefixes_of(
            strs(durable@),
            page_of(page@),
            plan_of(plan@),
            parked@.dom(),
            opt_ref(scope),
            page@.len(),
        ),
{
    let mut out = clone_strs(durable);
    for i in 0..page.len()
        invariant
            page@.len() == plan@.len(),
            strs(out@) == prefixes_of(
                strs(durable@),
                page_of(page@),
                plan_of(plan@),
                parked@.dom(),
                opt_ref(scope),
                i as nat,
            ),
    {
        broadcast use crate::text::lemma_strs_push;

        assert(page_of(page@)[i as int] == page@[i as int].view());
        assert(plan_of(plan@)[i as int] == plan@[i as int].view());
        let held: bool = match &plan[i] {
            Disp::Park { .. } => true,
            _ => parked.contains_key(&page[i].id),
        };
        if held {
            if let Some(p) = prefix_of(page[i].path.as_str(), scope) {
                out.push(p);
            }
        }
    }
    out
}

fn seed(inc: &Vec<Incumbent>) -> (r: (StringHashMap<u128>, StringHashMap<u128>))
    ensures
        (r.0@, r.1@) == seeded(incumbents_of(inc@)),
{
    let mut paths: StringHashMap<u128> = StringHashMap::new();
    let mut folds: StringHashMap<u128> = StringHashMap::new();
    let ghost all = incumbents_of(inc@);
    for i in 0..inc.len()
        invariant
            all == incumbents_of(inc@),
            (paths@, folds@) == seeded(all.take(i as int)),
    {
        assert(all.take(i + 1).drop_last() =~= all.take(i as int));
        assert(all.take(i + 1).last() == (inc@[i as int].spot.view(), inc@[i as int].id));
        let c = &inc[i];
        if !paths.contains_key(c.spot.path.as_str()) {
            paths.insert(c.spot.path.clone(), c.id);
        }
        if !folds.contains_key(c.spot.fold.as_str()) {
            folds.insert(c.spot.fold.clone(), c.id);
        }
    }
    assert(all.take(inc@.len() as int) =~= all);
    (paths, folds)
}

/// One round over the page.
fn derive_round(
    inc: &Vec<Incumbent>,
    durable: &Vec<String>,
    page: &Vec<Delivered>,
    plan: &Vec<Disp>,
    parked: &BTreeMap<u128, (Conflict, usize)>,
    scope: Option<&str>,
) -> (r: BTreeMap<u128, (Conflict, usize)>)
    requires
        page@.len() == plan@.len(),
    ensures
        r@ == derive(
            Ground {
                inc: incumbents_of(inc@),
                durable: strs(durable@),
                scope: opt_ref(scope),
            },
            page_of(page@),
            plan_of(plan@),
            parked@.dom(),
        ),
{
    let prefixes = held_prefixes(durable, page, plan, parked, scope);
    let (mut paths, mut folds) = seed(inc);
    let mut out: BTreeMap<u128, (Conflict, usize)> = BTreeMap::new();
    let ghost incv = incumbents_of(inc@);
    let ghost pre = strs(prefixes@);
    let ghost pages = page_of(page@);
    let ghost plans = plan_of(plan@);
    assert(out@ =~= Map::<u128, (Conflict, usize)>::empty());
    for i in 0..page.len()
        invariant
            page@.len() == plan@.len(),
            incv == incumbents_of(inc@),
            pre == strs(prefixes@),
            pages == page_of(page@),
            plans == plan_of(plan@),
            (Round { paths: paths@, folds: folds@, out: out@ }) == round(
                incv,
                pre,
                pages,
                plans,
                opt_ref(scope),
                i as nat,
            ),
    {
        assert(pages[i as int] == page@[i as int].view());
        assert(plans[i as int] == plan@[i as int].view());
        let id: u128 = page[i].id;
        if let Disp::Put { local, .. } = &plan[i] {
            let rel: &str = match scope_relative(page[i].path.as_str(), scope) {
                Some(r) => r,
                None => page[i].path.as_str(),
            };
            let by_path: Option<u128> = match paths.get(local.path.as_str()) {
                Some(o) => if *o != id {
                    Some(*o)
                } else {
                    None
                },
                None => None,
            };
            let by_fold: Option<u128> = match folds.get(local.fold.as_str()) {
                Some(o) => if *o != id {
                    Some(*o)
                } else {
                    None
                },
                None => None,
            };
            if any_prefix(rel, &prefixes) {
                out.insert(id, (Conflict::InParkedFolder, i));
            } else if let Some(o) = by_path {
                out.insert(id, (Conflict::Path(o), i));
            } else if let Some(o) = by_fold {
                out.insert(id, (Conflict::Fold(o), i));
            } else {
                if !paths.contains_key(local.path.as_str()) {
                    paths.insert(local.path.clone(), id);
                }
                if !folds.contains_key(local.fold.as_str()) {
                    folds.insert(local.fold.clone(), id);
                }
            }
        }
    }
    out
}

fn keys_within(
    a: &BTreeMap<u128, (Conflict, usize)>,
    b: &BTreeMap<u128, (Conflict, usize)>,
) -> (r: bool)
    ensures
        r == a@.dom().subset_of(b@.dom()),
{
    let ghost keys = vstd::std_specs::iter::IteratorSpec::remaining(
        &vstd::std_specs::btree::spec_keys_iter(a),
    );
    for k in it: a.keys()
        invariant
            it.seq() == keys,
            keys == vstd::std_specs::iter::IteratorSpec::remaining(
                &vstd::std_specs::btree::spec_keys_iter(a),
            ),
            forall|i: int| 0 <= i < it.index() ==> b@.dom().contains(*#[trigger] keys[i]),
    {
        if !b.contains_key(k) {
            assert(keys.unref()[it.index() as int] == *k);
            assert(keys.unref().to_set().contains(*k));
            assert(a@.dom().contains(*k));
            return false;
        }
    }
    assert forall|id: u128| a@.dom().contains(id) implies b@.dom().contains(id) by {
        assert(keys.unref().to_set().contains(id));
        let i = choose|i: int| 0 <= i < keys.unref().len() && keys.unref()[i] == id;
        assert(*keys[i] == id);
    }
    true
}

/// The verdicts on a page that was classified. `inc` holds the materialized nodes the page does
/// not deliver, `durable` the prefixes of the folders that were held back before it.
pub fn judge(
    inc: &Vec<Incumbent>,
    durable: &Vec<String>,
    page: &Vec<Delivered>,
    plan: &Vec<Disp>,
    scope: Option<&str>,
) -> (r: BTreeMap<u128, (Conflict, usize)>)
    requires
        page@.len() == plan@.len(),
    ensures
        r@ == verdicts(
            Ground {
                inc: incumbents_of(inc@),
                durable: strs(durable@),
                scope: opt_ref(scope),
            },
            page_of(page@),
            plan_of(plan@),
        ),
{
    let ghost g = Ground {
        inc: incumbents_of(inc@),
        durable: strs(durable@),
        scope: opt_ref(scope),
    };
    let ghost pages = page_of(page@);
    let ghost plans = plan_of(plan@);
    let mut parked: BTreeMap<u128, (Conflict, usize)> = BTreeMap::new();
    assert(parked@ =~= Map::<u128, (Conflict, usize)>::empty());
    let mut left: u128 = page.len() as u128 + 2;
    while left > 0
        invariant
            page@.len() == plan@.len(),
            pages == page_of(page@),
            plans == plan_of(plan@),
            g == (Ground {
                inc: incumbents_of(inc@),
                durable: strs(durable@),
                scope: opt_ref(scope),
            }),
            verdicts(g, pages, plans) == settle(g, pages, plans, left as nat, parked@),
        decreases left,
    {
        let next = derive_round(inc, durable, page, plan, &parked, scope);
        let stable: bool = keys_within(&next, &parked) && keys_within(&parked, &next);
        if stable {
            assert(next@.dom() =~= parked@.dom());
            return next;
        }
        left -= 1;
        parked = next;
    }
    parked
}

proof fn lemma_round_out(
    inc: Seq<(SpotVal, u128)>,
    prefixes: Seq<Seq<char>>,
    page: Seq<DeliveredVal>,
    plan: Seq<DispVal>,
    scope: Option<Seq<char>>,
    n: nat,
)
    requires
        n <= page.len() == plan.len(),
        page.len() <= usize::MAX,
    ensures
        forall|id: u128| #[trigger]
            round(inc, prefixes, page, plan, scope, n).out.dom().contains(id) ==> {
                let at = round(inc, prefixes, page, plan, scope, n).out[id].1;
                at < n && plan[at as int] is Put && page[at as int].id == id
            },
    decreases n,
{
    if n > 0 {
        lemma_round_out(inc, prefixes, page, plan, scope, (n - 1) as nat);
    }
}

proof fn lemma_settle_out(
    g: Ground,
    page: Seq<DeliveredVal>,
    plan: Seq<DispVal>,
    rounds: nat,
    prev: Verdicts,
)
    requires
        page.len() == plan.len(),
        page.len() <= usize::MAX,
        forall|id: u128| #[trigger]
            prev.dom().contains(id) ==> prev[id].1 < page.len() && plan[prev[id].1 as int] is Put,
    ensures
        forall|id: u128| #[trigger]
            settle(g, page, plan, rounds, prev).dom().contains(id) ==> settle(
                g,
                page,
                plan,
                rounds,
                prev,
            )[id].1 < page.len() && plan[settle(g, page, plan, rounds, prev)[id].1 as int] is Put,
    decreases rounds,
{
    if rounds > 0 {
        let prefixes = prefixes_of(g.durable, page, plan, prev.dom(), g.scope, page.len());
        lemma_round_out(g.inc, prefixes, page, plan, g.scope, page.len());
        let next = derive(g, page, plan, prev.dom());
        lemma_settle_out(g, page, plan, (rounds - 1) as nat, next);
    }
}

/// Park what the verdicts hold back.
fn park_conflicts(
    page: &Vec<Delivered>,
    plan: Vec<Disp>,
    v: &BTreeMap<u128, (Conflict, usize)>,
    Ghost(g): Ghost<Ground>,
) -> (r: Vec<Disp>)
    requires
        page@.len() == plan@.len(),
        v@ == verdicts(g, page_of(page@), plan_of(plan@)),
    ensures
        plan_of(r@) == with_verdicts(page_of(page@), plan_of(plan@), v@),
{
    let ghost pages = page_of(page@);
    let ghost plans = plan_of(plan@);
    let ghost original = plan@;
    let n: usize = plan.len();
    proof {
        lemma_settle_out(g, pages, plans, pages.len() + 2, Map::empty());
    }
    let mut reasons: Vec<Option<String>> = Vec::new();
    for i in 0..n
        invariant
            n == plan@.len() == page@.len(),
            pages == page_of(page@),
            plans == plan_of(plan@),
            forall|id: u128| #[trigger]
                v@.dom().contains(id) ==> v@[id].1 < n && plans[v@[id].1 as int] is Put,
            reasons@.len() == i,
            forall|j: int|
                0 <= j < i ==> crate::text::opt_str(#[trigger] reasons@[j]) == (
                if v@.dom().contains(pages[j].id) {
                    Some(
                        conflict_text(
                            v@[pages[j].id].0,
                            put_path(plans[v@[pages[j].id].1 as int]),
                        ),
                    )
                } else {
                    None
                }),
    {
        assert(pages[i as int] == page@[i as int].view());
        match v.get(&page[i].id) {
            Some(verdict) => {
                let at: usize = verdict.1;
                assert(plans[at as int] == plan@[at as int].view());
                let reason: String = match &plan[at] {
                    Disp::Put { local, .. } => conflict_reason(verdict.0, local.path.as_str()),
                    _ => String::new(),
                };
                reasons.push(Some(reason));
            },
            None => {
                reasons.push(None);
            },
        }
    }
    let mut out: Vec<Disp> = plan;
    for i in 0..n
        invariant
            n == out@.len() == page@.len(),
            reasons@.len() == n,
            original.len() == n,
            plans == plan_of(original),
            pages == page_of(page@),
            forall|j: int|
                0 <= j < n ==> crate::text::opt_str(#[trigger] reasons@[j]) == (
                if v@.dom().contains(pages[j].id) {
                    Some(
                        conflict_text(
                            v@[pages[j].id].0,
                            put_path(plans[v@[pages[j].id].1 as int]),
                        ),
                    )
                } else {
                    None
                }),
            forall|j: int|
                0 <= j < n ==> (#[trigger] out@[j]).view() == (if j < i {
                    with_verdicts(pages, plans, v@)[j]
                } else {
                    plans[j]
                }),
    {
        if let Some(reason) = &reasons[i] {
            out.set(i, Disp::Park { class: ParkClass::Lasting, reason: reason.clone() });
        }
    }
    assert(plan_of(out@) =~= with_verdicts(pages, plans, v@));
    out
}

/// The page delivers a node of that id.
pub open spec fn delivers(page: Seq<DeliveredVal>, id: u128) -> bool {
    exists|i: int| 0 <= i < page.len() && (#[trigger] page[i]).id == id
}

/// The nodes among `ids` that are live and not delivered with the page, in that order.
pub open spec fn incumbents_among(
    nodes: Map<u128, NodeVal>,
    ledger: Set<u128>,
    page: Seq<DeliveredVal>,
    ids: Seq<u128>,
) -> Seq<(SpotVal, u128)>
    decreases ids.len(),
{
    if ids.len() == 0 {
        Seq::empty()
    } else {
        let before = incumbents_among(nodes, ledger, page, ids.drop_last());
        let id = ids.last();
        if ledger.contains(id) && !delivers(page, id) {
            before.push((nodes[id].local, id))
        } else {
            before
        }
    }
}

/// The prefixes of the folders among `ids` that are held back and not delivered with the page,
/// in that order.
pub open spec fn prefixes_among(
    parks: Map<u128, ParkVal>,
    page: Seq<DeliveredVal>,
    scope: Option<Seq<char>>,
    ids: Seq<u128>,
) -> Seq<Seq<char>>
    decreases ids.len(),
{
    if ids.len() == 0 {
        Seq::empty()
    } else {
        let before = prefixes_among(parks, page, scope, ids.drop_last());
        let id = ids.last();
        match folder_prefix(parks[id].server_path, scope) {
            Some(p) => if delivers(page, id) {
                before
            } else {
                before.push(p)
            },
            None => before,
        }
    }
}

/// The page is judged against the nodes that are live and not delivered with it, and against the
/// folders that were held back and are not delivered with it, each in the order of the ids.
pub open spec fn ground_of(
    nodes: Map<u128, NodeVal>,
    ledger: Set<u128>,
    parks: Map<u128, ParkVal>,
    scope: Option<Seq<char>>,
    page: Seq<DeliveredVal>,
) -> Ground {
    Ground {
        inc: incumbents_among(nodes, ledger, page, roll(nodes.dom())),
        durable: prefixes_among(parks, page, scope, roll(parks.dom())),
        scope,
    }
}

fn page_delivers(page: &Vec<Delivered>, id: u128) -> (r: bool)
    ensures
        r == delivers(page_of(page@), id),
{
    for i in 0..page.len()
        invariant
            forall|j: int| 0 <= j < i ==> (#[trigger] page_of(page@)[j]).id != id,
    {
        assert(page_of(page@)[i as int] == page@[i as int].view());
        if page[i].id == id {
            return true;
        }
    }
    false
}

fn incumbents(state: &WsState, page: &Vec<Delivered>) -> (r: Vec<Incumbent>)
    ensures
        incumbents_of(r@) == incumbents_among(
            state.nodes_v(),
            state.ledger@,
            page_of(page@),
            roll(state.nodes_v().dom()),
        ),
{
    let ids = state.node_ids();
    let ghost nodes = state.nodes_v();
    let ghost pages = page_of(page@);
    let mut out: Vec<Incumbent> = Vec::new();
    assert(incumbents_of(out@) =~= incumbents_among(nodes, state.ledger@, pages, ids@.take(0)));
    for k in 0..ids.len()
        invariant
            nodes == state.nodes_v(),
            pages == page_of(page@),
            forall|id: u128| #[trigger] ids@.contains(id) <==> nodes.dom().contains(id),
            incumbents_of(out@) == incumbents_among(
                nodes,
                state.ledger@,
                pages,
                ids@.take(k as int),
            ),
    {
        let id: u128 = ids[k];
        assert(ids@.contains(id));
        assert(ids@.take(k + 1).drop_last() =~= ids@.take(k as int));
        if state.ledger.contains(&id) && !page_delivers(page, id) {
            if let Some(n) = state.node(id) {
                let ghost before = out@;
                out.push(Incumbent { spot: n.local.copy(), id });
                assert(incumbents_of(out@) =~= incumbents_of(before).push((nodes[id].local, id)));
            }
        }
    }
    assert(ids@.take(ids@.len() as int) =~= ids@);
    out
}

fn durable_prefixes(state: &WsState, page: &Vec<Delivered>, scope: Option<&str>) -> (r: Vec<String>)
    ensures
        strs(r@) == prefixes_among(
            state.parks_v(),
            page_of(page@),
            opt_ref(scope),
            roll(state.parks_v().dom()),
        ),
{
    let ids = state.park_ids();
    let ghost parks = state.parks_v();
    let ghost pages = page_of(page@);
    let mut out: Vec<String> = Vec::new();
    assert(strs(out@) =~= prefixes_among(parks, pages, opt_ref(scope), ids@.take(0)));
    for k in 0..ids.len()
        invariant
            parks == state.parks_v(),
            pages == page_of(page@),
            forall|id: u128| #[trigger] ids@.contains(id) <==> parks.dom().contains(id),
            strs(out@) == prefixes_among(parks, pages, opt_ref(scope), ids@.take(k as int)),
    {
        let id: u128 = ids[k];
        assert(ids@.contains(id));
        assert(ids@.take(k + 1).drop_last() =~= ids@.take(k as int));
        if !page_delivers(page, id) {
            if let Some(park) = state.park(id) {
                if let Some(p) = prefix_of(park.server_path.as_str(), scope) {
                    proof {
                        crate::text::lemma_strs_push(out@, p);
                    }
                    out.push(p);
                }
            }
        }
    }
    assert(ids@.take(ids@.len() as int) =~= ids@);
    out
}

/// Each delivery of the page on its own.
pub open spec fn classified_page(
    nodes: Map<u128, NodeVal>,
    idx: Claims,
    ws: u128,
    scope: Option<Seq<char>>,
    controls: Seq<Seq<char>>,
    rules: FsRules,
    page: Seq<DeliveredVal>,
) -> Seq<DispVal> {
    Seq::new(
        page.len(),
        |i: int|
            crate::apply::classified(
                nodes.dom().contains(page[i].id),
                idx,
                ws,
                scope,
                controls,
                rules,
                page[i],
            ),
    )
}

/// What becomes of each delivery of a page: each on its own, then all of them judged together.
pub open spec fn planned(
    nodes: Map<u128, NodeVal>,
    ledger: Set<u128>,
    parks: Map<u128, ParkVal>,
    idx: Claims,
    ws: u128,
    scope: Option<Seq<char>>,
    controls: Seq<Seq<char>>,
    rules: FsRules,
    page: Seq<DeliveredVal>,
) -> Seq<DispVal> {
    let cls = classified_page(nodes, idx, ws, scope, controls, rules, page);
    with_verdicts(page, cls, verdicts(ground_of(nodes, ledger, parks, scope, page), page, cls))
}

/// Decide what becomes of each delivery of a page, before anything touches the disk.
pub fn plan_page(
    state: &WsState,
    idx: &crate::apply::ClaimIndex,
    ws: u128,
    scope: Option<&str>,
    controls: &Vec<String>,
    rules: &FsRules,
    page: &Vec<Delivered>,
) -> (r: Vec<Disp>)
    ensures
        plan_of(r@) == planned(
            state.nodes_v(),
            state.ledger@,
            state.parks_v(),
            idx.view(),
            ws,
            opt_ref(scope),
            strs(controls@),
            *rules,
            page_of(page@),
        ),
        r@.len() == page@.len(),
{
    let ghost cls = classified_page(
        state.nodes_v(),
        idx.view(),
        ws,
        opt_ref(scope),
        strs(controls@),
        *rules,
        page_of(page@),
    );
    let mut plan: Vec<Disp> = Vec::new();
    for i in 0..page.len()
        invariant
            cls == classified_page(
                state.nodes_v(),
                idx.view(),
                ws,
                opt_ref(scope),
                strs(controls@),
                *rules,
                page_of(page@),
            ),
            plan@.len() == i,
            forall|j: int| 0 <= j < i ==> (#[trigger] plan@[j]).view() == cls[j],
    {
        assert(page_of(page@)[i as int] == page@[i as int].view());
        plan.push(crate::apply::classify(state, idx, ws, scope, controls, rules, &page[i]));
    }
    assert(plan_of(plan@) =~= cls);
    let inc = incumbents(state, page);
    let durable = durable_prefixes(state, page, scope);
    let v = judge(&inc, &durable, page, &plan, scope);
    let ghost g = Ground {
        inc: incumbents_of(inc@),
        durable: strs(durable@),
        scope: opt_ref(scope),
    };
    let out = park_conflicts(page, plan, &v, Ghost(g));
    assert(plan_of(out@).len() == page@.len());
    out
}

/// The path and fold key of a delivery that stays are its own in the end.
proof fn lemma_round_claims(
    inc: Seq<(SpotVal, u128)>,
    prefixes: Seq<Seq<char>>,
    page: Seq<DeliveredVal>,
    plan: Seq<DispVal>,
    scope: Option<Seq<char>>,
    n: nat,
)
    requires
        n <= page.len() == plan.len(),
    ensures
        ({
            let r = round(inc, prefixes, page, plan, scope, n);
            &&& forall|k: Seq<char>| #[trigger]
                seeded(inc).0.dom().contains(k) ==> r.paths.dom().contains(k) && r.paths[k]
                    == seeded(inc).0[k]
            &&& forall|k: Seq<char>| #[trigger]
                seeded(inc).1.dom().contains(k) ==> r.folds.dom().contains(k) && r.folds[k]
                    == seeded(inc).1[k]
            &&& forall|i: int|
                0 <= i < n && (#[trigger] plan[i]) is Put && !r.out.dom().contains(page[i].id) ==> {
                    &&& r.paths.dom().contains(plan[i]->local.path)
                    &&& r.paths[plan[i]->local.path] == page[i].id
                    &&& r.folds.dom().contains(plan[i]->local.fold)
                    &&& r.folds[plan[i]->local.fold] == page[i].id
                    &&& !under_any(rel_of(page[i].path, scope), prefixes)
                }
        }),
    decreases n,
{
    if n > 0 {
        lemma_round_claims(inc, prefixes, page, plan, scope, (n - 1) as nat);
        let before = round(inc, prefixes, page, plan, scope, (n - 1) as nat);
        let r = round(inc, prefixes, page, plan, scope, n);
        assert forall|i: int|
            0 <= i < n && (#[trigger] plan[i]) is Put && !r.out.dom().contains(page[i].id) implies {
            &&& r.paths.dom().contains(plan[i]->local.path)
            &&& r.paths[plan[i]->local.path] == page[i].id
            &&& r.folds.dom().contains(plan[i]->local.fold)
            &&& r.folds[plan[i]->local.fold] == page[i].id
            &&& !under_any(rel_of(page[i].path, scope), prefixes)
        } by {
            if i < n - 1 {
                assert(!before.out.dom().contains(page[i].id));
            }
        }
    }
}

proof fn lemma_settled_is_a_round(
    g: Ground,
    page: Seq<DeliveredVal>,
    plan: Seq<DispVal>,
    rounds: nat,
    prev: Verdicts,
) -> (parked: Set<u128>)
    requires
        rounds > 0,
    ensures
        settle(g, page, plan, rounds, prev) == derive(g, page, plan, parked),
    decreases rounds,
{
    reveal_with_fuel(settle, 2);
    let next = derive(g, page, plan, prev.dom());
    if next.dom() == prev.dom() || rounds == 1 {
        prev.dom()
    } else {
        lemma_settled_is_a_round(g, page, plan, (rounds - 1) as nat, next)
    }
}

/// Only an id that was to be materialized is held back by a verdict.
pub proof fn lemma_verdict_on_put(g: Ground, page: Seq<DeliveredVal>, plan: Seq<DispVal>, id: u128) -> (at: int)
    requires
        page.len() == plan.len(),
        page.len() <= usize::MAX,
        verdicts(g, page, plan).dom().contains(id),
    ensures
        0 <= at < page.len(),
        page[at].id == id,
        plan[at] is Put,
{
    let parked = lemma_settled_is_a_round(g, page, plan, page.len() + 2, Map::empty());
    let prefixes = prefixes_of(g.durable, page, plan, parked, g.scope, page.len());
    lemma_round_out(g.inc, prefixes, page, plan, g.scope, page.len());
    verdicts(g, page, plan)[id].1 as int
}

/// Two different nodes of a page are never written to one path, nor to two spellings of one
/// file.
pub proof fn planned_puts_never_share_a_place(
    g: Ground,
    page: Seq<DeliveredVal>,
    plan: Seq<DispVal>,
    i: int,
    j: int,
)
    requires
        page.len() == plan.len(),
        0 <= i < plan.len(),
        0 <= j < plan.len(),
        page[i].id != page[j].id,
        with_verdicts(page, plan, verdicts(g, page, plan))[i] is Put,
        with_verdicts(page, plan, verdicts(g, page, plan))[j] is Put,
    ensures
        ({
            let p = with_verdicts(page, plan, verdicts(g, page, plan));
            p[i]->local.path != p[j]->local.path && p[i]->local.fold != p[j]->local.fold
        }),
{
    let parked = lemma_settled_is_a_round(g, page, plan, page.len() + 2, Map::empty());
    let prefixes = prefixes_of(g.durable, page, plan, parked, g.scope, page.len());
    lemma_round_claims(g.inc, prefixes, page, plan, g.scope, page.len());
    assert(plan[i] is Put && plan[j] is Put);
}

proof fn lemma_incumbents_among(
    nodes: Map<u128, NodeVal>,
    ledger: Set<u128>,
    page: Seq<DeliveredVal>,
    ids: Seq<u128>,
)
    ensures
        ({
            let inc = incumbents_among(nodes, ledger, page, ids);
            &&& forall|a: int| 0 <= a < inc.len() ==> !delivers(page, (#[trigger] inc[a]).1)
            &&& forall|id: u128| #[trigger]
                ids.contains(id) && ledger.contains(id) && !delivers(page, id) ==> inc.contains(
                    (nodes[id].local, id),
                )
        }),
    decreases ids.len(),
{
    if ids.len() > 0 {
        let rest = ids.drop_last();
        lemma_incumbents_among(nodes, ledger, page, rest);
        let before = incumbents_among(nodes, ledger, page, rest);
        let inc = incumbents_among(nodes, ledger, page, ids);
        assert forall|id: u128| #[trigger]
            ids.contains(id) && ledger.contains(id) && !delivers(page, id) implies inc.contains(
            (nodes[id].local, id),
        ) by {
            if id == ids.last() {
                assert(inc[before.len() as int] == (nodes[id].local, id));
            } else {
                let j = choose|j: int| 0 <= j < ids.len() && ids[j] == id;
                assert(rest[j] == id);
                assert(rest.contains(id));
                let w = choose|w: int| 0 <= w < before.len() && before[w] == (nodes[id].local, id);
                assert(inc[w] == before[w]);
            }
        }
    }
}

/// No delivery is written over a live node that the page does not deliver.
pub proof fn planned_puts_never_take_an_incumbents_place(
    nodes: Map<u128, NodeVal>,
    ledger: Set<u128>,
    parks: Map<u128, ParkVal>,
    idx: Claims,
    ws: u128,
    scope: Option<Seq<char>>,
    controls: Seq<Seq<char>>,
    rules: FsRules,
    page: Seq<DeliveredVal>,
    i: int,
    id: u128,
)
    requires
        nodes.dom().finite(),
        nodes.dom().contains(id),
        ledger.contains(id),
        !delivers(page, id),
        0 <= i < page.len(),
        planned(nodes, ledger, parks, idx, ws, scope, controls, rules, page)[i] is Put,
    ensures
        ({
            let p = planned(nodes, ledger, parks, idx, ws, scope, controls, rules, page);
            p[i]->local.path != nodes[id].local.path && p[i]->local.fold != nodes[id].local.fold
        }),
{
    let g = ground_of(nodes, ledger, parks, scope, page);
    let plan = classified_page(nodes, idx, ws, scope, controls, rules, page);
    lemma_roll_exists(nodes.dom());
    let ids = roll(nodes.dom());
    lemma_incumbents_among(nodes, ledger, page, ids);
    assert(ids.contains(id));
    let k = choose|k: int| 0 <= k < g.inc.len() && g.inc[k] == (nodes[id].local, id);
    let parked = lemma_settled_is_a_round(g, page, plan, page.len() + 2, Map::empty());
    let prefixes = prefixes_of(g.durable, page, plan, parked, g.scope, page.len());
    lemma_round_claims(g.inc, prefixes, page, plan, g.scope, page.len());
    lemma_seeded(g.inc, k);
    assert(plan[i] is Put);
    assert(page[i].id == page[i].id);
}

proof fn lemma_seeded(inc: Seq<(SpotVal, u128)>, k: int)
    requires
        0 <= k < inc.len(),
    ensures
        seeded(inc).0.dom().contains(inc[k].0.path),
        seeded(inc).1.dom().contains(inc[k].0.fold),
        forall|p: Seq<char>| #[trigger]
            seeded(inc).0.dom().contains(p) ==> exists|a: int|
                0 <= a < inc.len() && (#[trigger] inc[a]).1 == seeded(inc).0[p],
        forall|p: Seq<char>| #[trigger]
            seeded(inc).1.dom().contains(p) ==> exists|a: int|
                0 <= a < inc.len() && (#[trigger] inc[a]).1 == seeded(inc).1[p],
    decreases inc.len(),
{
    let rest = inc.drop_last();
    let n = inc.len() - 1;
    if rest.len() > 0 {
        lemma_seeded(
            rest,
            if k < n {
                k
            } else {
                0
            },
        );
        if k < n {
            assert(rest[k] == inc[k]);
        }
    }
    assert forall|p: Seq<char>| #[trigger] seeded(inc).0.dom().contains(p) implies exists|a: int|
        0 <= a < inc.len() && (#[trigger] inc[a]).1 == seeded(inc).0[p] by {
        if seeded(rest).0.dom().contains(p) {
            let a = choose|a: int| 0 <= a < rest.len() && (#[trigger] rest[a]).1 == seeded(rest).0[p];
            assert(inc[a] == rest[a]);
        } else {
            assert(inc[n].1 == seeded(inc).0[p]);
        }
    }
    assert forall|p: Seq<char>| #[trigger] seeded(inc).1.dom().contains(p) implies exists|a: int|
        0 <= a < inc.len() && (#[trigger] inc[a]).1 == seeded(inc).1[p] by {
        if seeded(rest).1.dom().contains(p) {
            let a = choose|a: int| 0 <= a < rest.len() && (#[trigger] rest[a]).1 == seeded(rest).1[p];
            assert(inc[a] == rest[a]);
        } else {
            assert(inc[n].1 == seeded(inc).1[p]);
        }
    }
}

proof fn lemma_held_prefix(
    durable: Seq<Seq<char>>,
    page: Seq<DeliveredVal>,
    plan: Seq<DispVal>,
    parked: Set<u128>,
    scope: Option<Seq<char>>,
    n: nat,
    k: int,
)
    requires
        0 <= k < n,
        plan[k] is Park || parked.contains(page[k].id),
        folder_prefix(page[k].path, scope) is Some,
    ensures
        prefixes_of(durable, page, plan, parked, scope, n).contains(
            folder_prefix(page[k].path, scope)->0,
        ),
    decreases n,
{
    let before = prefixes_of(durable, page, plan, parked, scope, (n - 1) as nat);
    let all = prefixes_of(durable, page, plan, parked, scope, n);
    let p = folder_prefix(page[k].path, scope)->0;
    if k < n - 1 {
        lemma_held_prefix(durable, page, plan, parked, scope, (n - 1) as nat, k);
        let w = choose|w: int| 0 <= w < before.len() && before[w] == p;
        assert(all[w] == p);
    } else {
        assert(all[before.len() as int] == p);
    }
}

/// Once the verdicts have settled, nothing is written inside a folder that is held back.
pub proof fn settled_plans_write_nothing_under_a_park(
    g: Ground,
    page: Seq<DeliveredVal>,
    plan: Seq<DispVal>,
    v: Verdicts,
    i: int,
    k: int,
)
    requires
        page.len() == plan.len(),
        v == derive(g, page, plan, v.dom()),
        0 <= i < plan.len(),
        0 <= k < plan.len(),
        with_verdicts(page, plan, v)[i] is Put,
        with_verdicts(page, plan, v)[k] is Park,
        folder_prefix(page[k].path, g.scope) is Some,
    ensures
        !begins(rel_of(page[i].path, g.scope), folder_prefix(page[k].path, g.scope)->0),
{
    let prefixes = prefixes_of(g.durable, page, plan, v.dom(), g.scope, page.len());
    lemma_round_claims(g.inc, prefixes, page, plan, g.scope, page.len());
    lemma_held_prefix(g.durable, page, plan, v.dom(), g.scope, page.len(), k);
    assert(plan[i] is Put);
}

} // verus!
