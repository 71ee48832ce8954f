//! What is remembered of a mirrored workspace: the nodes that are materialized, the ids the
//! server delivered, and the deliveries that are parked.

use vstd::prelude::*;

use std::collections::BTreeMap;
use std::collections::BTreeSet;

use vstd::std_specs::cmp::OrdSpec;


verus! {

broadcast use vstd::std_specs::btree::group_btree_axioms;

#[derive(Debug, Clone, Copy, PartialEq, Eq, Structural)]
pub enum TrackedKind {
    Note,
    Folder,
    Attachment,
}

/// A local path together with its fold key: two paths with one key name one physical file.
#[derive(Debug)]
pub struct Spot {
    pub path: String,
    pub fold: String,
}

/// What a [`Spot`] says.
pub struct SpotVal {
    pub path: Seq<char>,
    pub fold: Seq<char>,
}

impl Spot {
    pub open spec fn view(&self) -> SpotVal {
        SpotVal { path: self.path@, fold: self.fold@ }
    }

    pub fn copy(&self) -> (r: Spot)
        ensures
            r.view() == self.view(),
    {
        Spot { path: self.path.clone(), fold: self.fold.clone() }
    }
}

pub open spec fn opt_spot(o: Option<Spot>) -> Option<SpotVal> {
    match o {
        Some(s) => Some(s.view()),
        None => None,
    }
}

pub fn copy_opt_spot(o: &Option<Spot>) -> (r: Option<Spot>)
    ensures
        opt_spot(r) == opt_spot(*o),
{
    match o {
        Some(s) => Some(s.copy()),
        None => None,
    }
}

/// A materialized node.
#[derive(Debug)]
pub struct NodeState {
    pub server_path: String,
    pub local: Spot,
    pub kind: TrackedKind,
    pub rev: i64,
    pub content_sha256: String,
    /// Where the marker of an attachment is.
    pub marker: Option<Spot>,
}

/// What a [`NodeState`] says.
pub struct NodeVal {
    pub server_path: Seq<char>,
    pub local: SpotVal,
    pub kind: TrackedKind,
    pub rev: i64,
    pub content_sha256: Seq<char>,
    pub marker: Option<SpotVal>,
}

impl NodeState {
    pub open spec fn view(&self) -> NodeVal {
        NodeVal {
            server_path: self.server_path@,
            local: self.local.view(),
            kind: self.kind,
            rev: self.rev,
            content_sha256: self.content_sha256@,
            marker: opt_spot(self.marker),
        }
    }

    pub fn copy(&self) -> (r: NodeState)
        ensures
            r.view() == self.view(),
    {
        NodeState {
            server_path: self.server_path.clone(),
            local: self.local.copy(),
            kind: self.kind,
            rev: self.rev,
            content_sha256: self.content_sha256.clone(),
            marker: copy_opt_spot(&self.marker),
        }
    }
}

pub open spec fn opt_node(o: Option<NodeState>) -> Option<NodeVal> {
    match o {
        Some(n) => Some(n.view()),
        None => None,
    }
}

/// Whether a park heals by itself.
#[derive(Debug, Clone, Copy, PartialEq, Eq, Structural)]
pub enum ParkClass {
    /// Only a rename on the server heals it.
    Lasting,
    /// It heals once what is in the way is gone.
    Transient,
}

/// A delivery that is held back.
#[derive(Debug)]
pub struct Park {
    pub class: ParkClass,
    pub reason: String,
    pub server_path: String,
}

/// What a [`Park`] says.
pub struct ParkVal {
    pub class: ParkClass,
    pub reason: Seq<char>,
    pub server_path: Seq<char>,
}

impl Park {
    pub open spec fn view(&self) -> ParkVal {
        ParkVal { class: self.class, reason: self.reason@, server_path: self.server_path@ }
    }
}

/// The state of one mirrored workspace.
#[derive(Debug)]
pub struct WsState {
    pub nodes: BTreeMap<u128, NodeState>,
    pub ledger: BTreeSet<u128>,
    pub parks: BTreeMap<u128, Park>,
}

/// The ids of a set, each once and in ascending order.
pub open spec fn is_roll(s: Seq<u128>, dom: Set<u128>) -> bool {
    &&& forall|i: int, j: int| 0 <= i < j < s.len() ==> s[i] < s[j]
    &&& forall|id: u128| #[trigger] s.contains(id) <==> dom.contains(id)
}

/// The ids of a finite set, in ascending order.
pub open spec fn roll(dom: Set<u128>) -> Seq<u128> {
    choose|s: Seq<u128>| is_roll(s, dom)
}

proof fn lemma_roll_insert(s: Seq<u128>, dom: Set<u128>, x: u128) -> (t: Seq<u128>)
    requires
        is_roll(s, dom),
        !dom.contains(x),
    ensures
        is_roll(t, dom.insert(x)),
    decreases s.len(),
{
    if s.len() == 0 || s.last() < x {
        let t = s.push(x);
        assert forall|i: int, j: int| 0 <= i < j < t.len() implies t[i] < t[j] by {
            if j == s.len() {
                assert(s[i] <= s.last());
            }
        }
        assert forall|id: u128| #[trigger] t.contains(id) <==> dom.insert(x).contains(id) by {
            if t.contains(id) {
                let w = choose|w: int| 0 <= w < t.len() && t[w] == id;
                if w < s.len() {
                    assert(s[w] == id);
                    assert(s.contains(id));
                }
            }
            if s.contains(id) {
                let w = choose|w: int| 0 <= w < s.len() && s[w] == id;
                assert(t[w] == id);
            }
            assert(t[s.len() as int] == x);
        }
        t
    } else {
        let m = s.last();
        let rest = s.drop_last();
        assert(s.contains(m));
        assert forall|id: u128| #[trigger] rest.contains(id) <==> dom.remove(m).contains(id) by {
            if rest.contains(id) {
                let w = choose|w: int| 0 <= w < rest.len() && rest[w] == id;
                assert(s[w] == id);
                assert(s.contains(id));
            }
            if dom.remove(m).contains(id) {
                assert(s.contains(id));
                let w = choose|w: int| 0 <= w < s.len() && s[w] == id;
                assert(rest[w] == id);
            }
        }
        let u = lemma_roll_insert(rest, dom.remove(m), x);
        let t = u.push(m);
        assert forall|i: int, j: int| 0 <= i < j < t.len() implies t[i] < t[j] by {
            if j == u.len() {
                assert(u.contains(u[i]));
                if u[i] != x {
                    assert(rest.contains(u[i]));
                    let w = choose|w: int| 0 <= w < rest.len() && rest[w] == u[i];
                    assert(s[w] < s[s.len() - 1]);
                } else {
                    assert(m != x);
                }
            }
        }
        assert forall|id: u128| #[trigger] t.contains(id) <==> dom.insert(x).contains(id) by {
            if t.contains(id) {
                let w = choose|w: int| 0 <= w < t.len() && t[w] == id;
                if w < u.len() {
                    assert(u[w] == id);
                    assert(u.contains(id));
                }
            }
            if u.contains(id) {
                let w = choose|w: int| 0 <= w < u.len() && u[w] == id;
                assert(t[w] == id);
            }
            assert(t[u.len() as int] == m);
            if dom.insert(x).contains(id) && id != m {
                assert(dom.remove(m).insert(x).contains(id));
                assert(u.contains(id));
            }
        }
        t
    }
}

/// The ids of a finite set can be listed so.
pub proof fn lemma_roll_exists(dom: Set<u128>)
    requires
        dom.finite(),
    ensures
        is_roll(roll(dom), dom),
    decreases dom.len(),
{
    let s: Seq<u128> = if dom.len() == 0 {
        assert(dom =~= Set::empty());
        Seq::empty()
    } else {
        let x = dom.choose();
        lemma_roll_exists(dom.remove(x));
        assert(dom.remove(x).insert(x) =~= dom);
        lemma_roll_insert(roll(dom.remove(x)), dom.remove(x), x)
    };
    assert(is_roll(s, dom));
}

/// There is only one such list.
pub proof fn lemma_roll(s: Seq<u128>, t: Seq<u128>, dom: Set<u128>)
    requires
        is_roll(s, dom),
        is_roll(t, dom),
    ensures
        s == t,
    decreases s.len(),
{
    if s.len() == 0 {
        if t.len() > 0 {
            assert(t.contains(t[0]));
            assert(s.contains(t[0]));
        }
        assert(s =~= t);
    } else {
        assert(s.contains(s.last()));
        assert(t.contains(s.last()));
        assert(t.contains(t.last()));
        assert(s.contains(t.last()));
        let a = choose|a: int| 0 <= a < t.len() && t[a] == s.last();
        let b = choose|b: int| 0 <= b < s.len() && s[b] == t.last();
        assert(a == t.len() - 1 || t[a] < t.last());
        assert(b == s.len() - 1 || s[b] < s.last());
        assert(s.last() == t.last());
        let m = s.last();
        let rest = dom.remove(m);
        assert forall|id: u128| #[trigger] s.drop_last().contains(id) <==> rest.contains(id) by {
            if s.drop_last().contains(id) {
                let k = choose|k: int| 0 <= k < s.drop_last().len() && s.drop_last()[k] == id;
                assert(s[k] == id && s[k] < m);
                assert(s.contains(id));
            }
            if rest.contains(id) {
                assert(s.contains(id));
                let k = choose|k: int| 0 <= k < s.len() && s[k] == id;
                assert(s.drop_last()[k] == id);
            }
        }
        assert forall|id: u128| #[trigger] t.drop_last().contains(id) <==> rest.contains(id) by {
            if t.drop_last().contains(id) {
                let k = choose|k: int| 0 <= k < t.drop_last().len() && t.drop_last()[k] == id;
                assert(t[k] == id && t[k] < m);
                assert(t.contains(id));
            }
            if rest.contains(id) {
                assert(t.contains(id));
                let k = choose|k: int| 0 <= k < t.len() && t[k] == id;
                assert(t.drop_last()[k] == id);
            }
        }
        lemma_roll(s.drop_last(), t.drop_last(), rest);
        assert(s =~= s.drop_last().push(m));
        assert(t =~= t.drop_last().push(m));
    }
}

/// References to ids are ordered as the ids are.
proof fn lemma_id_refs_are_ordered()
    ensures
        vstd::laws_cmp::obeys_cmp::<&u128>(),
{
    broadcast use vstd::laws_eq::group_laws_eq;

    reveal(vstd::laws_eq::obeys_eq_spec_properties);
    reveal(vstd::laws_cmp::obeys_partial_cmp_spec_properties);
    reveal(vstd::laws_cmp::obeys_cmp_partial_ord);
    reveal(vstd::laws_cmp::obeys_cmp_ord);
}

/// The keys of a map, in order.
pub fn keys_in_order<V>(m: &BTreeMap<u128, V>) -> (r: Vec<u128>)
    ensures
        is_roll(r@, m@.dom()),
        r@ == roll(m@.dom()),
{
    let mut out: Vec<u128> = Vec::new();
    let ghost keys = vstd::std_specs::iter::IteratorSpec::remaining(
        &vstd::std_specs::btree::spec_keys_iter(m),
    );
    for k in it: m.keys()
        invariant
            out@.len() == it.index(),
            it.seq() == vstd::std_specs::iter::IteratorSpec::remaining(
                &vstd::std_specs::btree::spec_keys_iter(m),
            ),
            forall|i: int| 0 <= i < out@.len() ==> out@[i] == *it.seq()[i],
    {
        out.push(*k);
    }
    assert(out@ =~= keys.unref());
    assert forall|id: u128| #[trigger] out@.contains(id) <==> m@.dom().contains(id) by {
        assert(keys.unref().to_set().contains(id) <==> m@.dom().contains(id));
    }
    assert forall|i: int, j: int| 0 <= i < j < out@.len() implies out@[i] < out@[j] by {
        lemma_id_refs_are_ordered();
        assert(vstd::std_specs::btree::increasing_seq(keys));
        assert(OrdSpec::cmp_spec(&keys[i], &keys[j]) is Less);
    }
    assert(is_roll(out@, m@.dom()));
    proof {
        lemma_roll(out@, roll(m@.dom()), m@.dom());
    }
    out
}

pub open spec fn node_vals(m: Map<u128, NodeState>) -> Map<u128, NodeVal> {
    m.map_values(|n: NodeState| n.view())
}

pub open spec fn park_vals(m: Map<u128, Park>) -> Map<u128, ParkVal> {
    m.map_values(|p: Park| p.view())
}

impl WsState {
    /// The materialized nodes.
    pub open spec fn nodes_v(&self) -> Map<u128, NodeVal> {
        node_vals(self.nodes@)
    }

    /// The parked deliveries.
    pub open spec fn parks_v(&self) -> Map<u128, ParkVal> {
        park_vals(self.parks@)
    }

    pub fn fresh() -> (r: WsState)
        ensures
            r.nodes_v() == Map::<u128, NodeVal>::empty(),
            r.ledger@ == Set::<u128>::empty(),
            r.parks_v() == Map::<u128, ParkVal>::empty(),
    {
        let s = WsState { nodes: BTreeMap::new(), ledger: BTreeSet::new(), parks: BTreeMap::new() };
        assert(s.nodes_v() =~= Map::<u128, NodeVal>::empty());
        assert(s.parks_v() =~= Map::<u128, ParkVal>::empty());
        s
    }

    /// The node of that id.
    pub fn node<'a>(&'a self, id: u128) -> (r: Option<&'a NodeState>)
        ensures
            match r {
                Some(n) => self.nodes_v().dom().contains(id) && self.nodes_v()[id] == n.view(),
                None => !self.nodes_v().dom().contains(id),
            },
    {
        self.nodes.get(&id)
    }

    pub fn put_node(&mut self, id: u128, n: NodeState)
        ensures
            final(self).nodes_v() == old(self).nodes_v().insert(id, n.view()),
            final(self).ledger@ == old(self).ledger@,
            final(self).parks_v() == old(self).parks_v(),
    {
        self.nodes.insert(id, n);
        assert(self.nodes_v() =~= old(self).nodes_v().insert(id, n.view()));
    }

    pub fn take_node(&mut self, id: u128) -> (r: Option<NodeState>)
        ensures
            final(self).nodes_v() == old(self).nodes_v().remove(id),
            final(self).ledger@ == old(self).ledger@,
            final(self).parks_v() == old(self).parks_v(),
            match r {
                Some(n) => old(self).nodes_v().dom().contains(id) && old(self).nodes_v()[id]
                    == n.view(),
                None => !old(self).nodes_v().dom().contains(id),
            },
    {
        let r = self.nodes.remove(&id);
        assert(self.nodes_v() =~= old(self).nodes_v().remove(id));
        r
    }

    pub fn put_park(&mut self, id: u128, p: Park)
        ensures
            final(self).parks_v() == old(self).parks_v().insert(id, p.view()),
            final(self).nodes_v() == old(self).nodes_v(),
            final(self).ledger@ == old(self).ledger@,
    {
        self.parks.insert(id, p);
        assert(self.parks_v() =~= old(self).parks_v().insert(id, p.view()));
    }

    pub fn drop_park(&mut self, id: u128)
        ensures
            final(self).parks_v() == old(self).parks_v().remove(id),
            final(self).nodes_v() == old(self).nodes_v(),
            final(self).ledger@ == old(self).ledger@,
    {
        self.parks.remove(&id);
        assert(self.parks_v() =~= old(self).parks_v().remove(id));
    }

    /// The park of that id.
    pub fn park<'a>(&'a self, id: u128) -> (r: Option<&'a Park>)
        ensures
            match r {
                Some(p) => self.parks_v().dom().contains(id) && self.parks_v()[id] == p.view(),
                None => !self.parks_v().dom().contains(id),
            },
    {
        self.parks.get(&id)
    }

    /// The ids that are parked, in order.
    pub fn park_ids(&self) -> (r: Vec<u128>)
        ensures
            is_roll(r@, self.parks_v().dom()),
            r@ == roll(self.parks_v().dom()),
    {
        assert(self.parks_v().dom() =~= self.parks@.dom());
        keys_in_order(&self.parks)
    }

    /// The ids of the materialized nodes, in order.
    pub fn node_ids(&self) -> (r: Vec<u128>)
        ensures
            is_roll(r@, self.nodes_v().dom()),
            r@ == roll(self.nodes_v().dom()),
    {
        assert(self.nodes_v().dom() =~= self.nodes@.dom());
        keys_in_order(&self.nodes)
    }
}

} // verus!
