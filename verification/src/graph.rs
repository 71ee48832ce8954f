//! The graph of a workspace, read from either end of a link.
//!
//! The server computes the graph, and every resolution in it arrives already made. Here it is
//! held and inverted, never derived: nothing reads a link out of a note or decides what an
//! ambiguous one points at.
//!
//! Answers are in the order of their bytes. The server sorts by a locale, so it is the members
//! of an answer that agree with the server's, not their sequence.

use vstd::prelude::*;

use std::collections::HashMap;

use crate::text::clone_opt;
use crate::text::lemma_text_lt_irreflexive;
use crate::text::lemma_text_lt_total;
use crate::text::lemma_text_lt_transitive;
use crate::text::opt_str;
use crate::text::same;
use crate::text::split;
use crate::text::split_of;
use crate::text::strs;
use crate::text::text_less;
use crate::text::text_lt;

verus! {

broadcast use vstd::std_specs::hash::group_hash_axioms;

/// What the graph says of a node.
#[derive(Debug)]
pub struct GraphNode {
    pub id: u128,
    pub kind: String,
    pub name: String,
    pub path: String,
    pub title: Option<String>,
    pub aliases: Vec<String>,
    pub mime: Option<String>,
    pub content_bytes: i32,
    pub trashed: bool,
}

/// A link out of the note at index `src`: to the note at `dst`, to the attachment at `att`, or to
/// nothing that exists.
#[derive(Debug)]
pub struct GraphEdge {
    pub src: u32,
    pub dst: Option<u32>,
    pub att: Option<u32>,
    /// The target as it is written.
    pub dst_ref: String,
    pub kind: String,
    pub anchor: Option<String>,
}

/// A tag of the note at index `node`.
#[derive(Debug)]
pub struct GraphTag {
    pub node: u32,
    pub tag: String,
}

/// A graph as it is delivered: edges and tags name a node by its index.
#[derive(Debug)]
pub struct WireGraph {
    pub nodes: Vec<GraphNode>,
    pub edges: Vec<GraphEdge>,
    pub tags: Vec<GraphTag>,
}

/// A note, as an answer names it.
#[derive(Debug, PartialEq, Eq)]
pub struct NoteRef {
    pub id: u128,
    pub name: String,
    pub path: String,
}

/// What a [`NoteRef`] says.
pub struct NoteVal {
    pub id: u128,
    pub name: Seq<char>,
    pub path: Seq<char>,
}

impl NoteRef {
    pub open spec fn view(&self) -> NoteVal {
        NoteVal { id: self.id, name: self.name@, path: self.path@ }
    }
}

/// An attachment, as an answer names it.
#[derive(Debug, PartialEq, Eq)]
pub struct FileRef {
    pub id: u128,
    pub name: String,
    pub path: String,
    pub mime: Option<String>,
    pub size: i32,
}

/// What a [`FileRef`] says.
pub struct FileVal {
    pub id: u128,
    pub name: Seq<char>,
    pub path: Seq<char>,
    pub mime: Option<Seq<char>>,
    pub size: i32,
}

impl FileRef {
    pub open spec fn view(&self) -> FileVal {
        FileVal {
            id: self.id,
            name: self.name@,
            path: self.path@,
            mime: opt_str(self.mime),
            size: self.size,
        }
    }
}

pub open spec fn note_of(n: GraphNode) -> NoteVal {
    NoteVal { id: n.id, name: n.name@, path: n.path@ }
}

pub open spec fn file_of(n: GraphNode) -> FileVal {
    FileVal {
        id: n.id,
        name: n.name@,
        path: n.path@,
        mime: opt_str(n.mime),
        size: n.content_bytes,
    }
}

pub open spec fn notes_of(v: Seq<NoteRef>) -> Seq<NoteVal> {
    Seq::new(v.len(), |i: int| v[i].view())
}

pub open spec fn files_of(v: Seq<FileRef>) -> Seq<FileVal> {
    Seq::new(v.len(), |i: int| v[i].view())
}

/// The notes at those indices.
pub open spec fn notes_at(nodes: Seq<GraphNode>, at: Seq<int>) -> Seq<NoteVal> {
    Seq::new(at.len(), |i: int| note_of(nodes[at[i]]))
}

/// The attachments at those indices.
pub open spec fn files_at(nodes: Seq<GraphNode>, at: Seq<int>) -> Seq<FileVal> {
    Seq::new(at.len(), |i: int| file_of(nodes[at[i]]))
}

/// The index of the last node of that id.
pub open spec fn last_with(nodes: Seq<GraphNode>, id: u128) -> Option<int>
    decreases nodes.len(),
{
    if nodes.len() == 0 {
        None
    } else if nodes.last().id == id {
        Some(nodes.len() - 1)
    } else {
        last_with(nodes.drop_last(), id)
    }
}

/// The index of a node id, as edges and tags write it.
pub open spec fn index_of(g: WireGraph, id: u128) -> Option<u32> {
    match last_with(g.nodes@, id) {
        Some(k) => Some(#[verifier::truncate] (k as u32)),
        None => None,
    }
}

/// There is a node at that index, and it is not in the trash.
pub open spec fn is_live(g: WireGraph, i: u32) -> bool {
    i < g.nodes@.len() && !g.nodes@[i as int].trashed
}

/// The order of two texts' components.
pub open spec fn parts_lt(a: Seq<Seq<char>>, b: Seq<Seq<char>>) -> bool
    decreases a.len(),
{
    if b.len() == 0 {
        false
    } else if a.len() == 0 {
        true
    } else if a[0] != b[0] {
        text_lt(a[0], b[0])
    } else {
        parts_lt(a.drop_first(), b.drop_first())
    }
}

/// How nodes are ordered.
#[derive(Clone, Copy, Debug, PartialEq, Eq, Structural)]
pub enum Order {
    /// By path, and by id where the paths are equal.
    Path,
    /// By the components of the path.
    Parts,
}

/// `a` stands before `b` in that order.
pub open spec fn precedes(order: Order, a: GraphNode, b: GraphNode) -> bool {
    match order {
        Order::Path => text_lt(a.path@, b.path@) || (a.path@ == b.path@ && a.id < b.id),
        Order::Parts => parts_lt(split_of(a.path@, '/'), split_of(b.path@, '/')),
    }
}

/// The ordered indices `s` with `i` put in, behind everything that it does not precede.
pub open spec fn inserted(nodes: Seq<GraphNode>, order: Order, s: Seq<int>, i: int) -> Seq<int>
    decreases s.len(),
{
    if s.len() > 0 && precedes(order, nodes[i], nodes[s.last()]) {
        inserted(nodes, order, s.drop_last(), i).push(s.last())
    } else {
        s.push(i)
    }
}

/// The indices in order; those that are equal in it keep their sequence.
pub open spec fn ranked(nodes: Seq<GraphNode>, order: Order, s: Seq<int>) -> Seq<int>
    decreases s.len(),
{
    if s.len() == 0 {
        s
    } else {
        inserted(nodes, order, ranked(nodes, order, s.drop_last()), s.last())
    }
}

/// The indices without those whose node has the id of the one before.
pub open spec fn distinct(nodes: Seq<GraphNode>, s: Seq<int>) -> Seq<int>
    decreases s.len(),
{
    if s.len() == 0 {
        s
    } else {
        let d = distinct(nodes, s.drop_last());
        if d.len() > 0 && nodes[d.last()].id == nodes[s.last()].id {
            d
        } else {
            d.push(s.last())
        }
    }
}

/// What is asked of the links at a node.
#[derive(Clone, Copy, Debug, PartialEq, Eq, Structural)]
pub enum Ask {
    /// Who links here, the note itself among them.
    Back,
    /// Which other notes it links to.
    Forward,
    /// Which attachments it embeds.
    Embeds,
    /// Who embeds it.
    Embedders,
}

/// The node that one link contributes to an answer.
pub open spec fn pick(g: WireGraph, ask: Ask, at: u32, e: GraphEdge) -> Option<int> {
    match ask {
        Ask::Back => if e.dst == Some(at) && is_live(g, e.src) {
            Some(e.src as int)
        } else {
            None
        },
        Ask::Forward => if e.src == at && e.dst is Some && e.dst->0 != at && is_live(g, e.dst->0) {
            Some(e.dst->0 as int)
        } else {
            None
        },
        Ask::Embeds => if e.src == at && e.att is Some && is_live(g, e.att->0) {
            Some(e.att->0 as int)
        } else {
            None
        },
        Ask::Embedders => if e.att == Some(at) && is_live(g, e.src) {
            Some(e.src as int)
        } else {
            None
        },
    }
}

/// What the first `n` links contribute.
pub open spec fn picks(g: WireGraph, ask: Ask, at: u32, n: nat) -> Seq<int>
    decreases n,
{
    if n == 0 {
        Seq::empty()
    } else {
        let before = picks(g, ask, at, (n - 1) as nat);
        match pick(g, ask, at, g.edges@[n - 1]) {
            Some(k) => before.push(k),
            None => before,
        }
    }
}

/// The nodes of an answer: in the order of their paths, each once.
pub open spec fn answer_at(g: WireGraph, ask: Ask, at: u32) -> Seq<int> {
    distinct(g.nodes@, ranked(g.nodes@, Order::Path, picks(g, ask, at, g.edges@.len())))
}

/// The nodes of an answer about an id: none where the graph does not know it, and no embeds of a
/// note in the trash.
pub open spec fn answer(g: WireGraph, ask: Ask, id: u128) -> Seq<int> {
    match index_of(g, id) {
        None => Seq::empty(),
        Some(at) => if ask == Ask::Embeds && !is_live(g, at) {
            Seq::empty()
        } else {
            answer_at(g, ask, at)
        },
    }
}

/// A link that is written in the note at `at` and leads to no note. An embed is none: it leads to
/// an attachment as a rule.
pub open spec fn dangles(e: GraphEdge, at: u32) -> bool {
    e.src == at && e.dst is None && e.dst_ref@.len() > 0 && (e.kind@ == "wikilink"@ || e.kind@
        == "markdown"@)
}

/// The text is a dangling target of the node.
pub open spec fn is_unresolved(g: WireGraph, id: u128, t: Seq<char>) -> bool {
    exists|j: int|
        0 <= j < g.edges@.len() && index_of(g, id) is Some && dangles(
            #[trigger] g.edges@[j],
            index_of(g, id)->0,
        ) && g.edges@[j].dst_ref@ == t
}

/// The node is live and has the tag.
pub open spec fn is_tagged(g: WireGraph, id: u128, t: Seq<char>) -> bool {
    exists|j: int|
        0 <= j < g.tags@.len() && index_of(g, id) is Some && is_live(g, index_of(g, id)->0)
            && (#[trigger] g.tags@[j]).node == index_of(g, id)->0 && g.tags@[j].tag@ == t
}

/// Texts in increasing order.
pub open spec fn increasing(s: Seq<Seq<char>>) -> bool {
    forall|i: int, j: int| 0 <= i < j < s.len() ==> text_lt(#[trigger] s[i], #[trigger] s[j])
}

/// The list of the texts that `p` holds of, in increasing order.
pub open spec fn is_list_of(s: Seq<Seq<char>>, p: spec_fn(Seq<char>) -> bool) -> bool {
    &&& increasing(s)
    &&& forall|t: Seq<char>| #[trigger] s.contains(t) <==> p(t)
}

proof fn lemma_increasing_head(a: Seq<Seq<char>>, b: Seq<Seq<char>>)
    requires
        increasing(a),
        increasing(b),
        a.len() > 0,
        b.contains(a[0]),
        a.contains(b[0]),
    ensures
        a[0] == b[0],
{
    let i = choose|i: int| 0 <= i < b.len() && b[i] == a[0];
    let j = choose|j: int| 0 <= j < a.len() && a[j] == b[0];
    if i > 0 && j > 0 {
        assert(text_lt(b[0], b[i]));
        assert(text_lt(a[0], a[j]));
        lemma_text_lt_transitive(a[0], b[0], a[0]);
        lemma_text_lt_irreflexive(a[0]);
    }
}

/// There is one such list at most.
pub proof fn a_list_is_determined(
    a: Seq<Seq<char>>,
    b: Seq<Seq<char>>,
    p: spec_fn(Seq<char>) -> bool,
)
    requires
        is_list_of(a, p),
        is_list_of(b, p),
    ensures
        a == b,
    decreases a.len(),
{
    if a.len() == 0 {
        if b.len() > 0 {
            assert(b.contains(b[0]));
            assert(a.contains(b[0]));
        }
        assert(a =~= b);
    } else {
        assert(a.contains(a[0]));
        assert(b.contains(a[0]));
        assert(b.len() > 0);
        assert(b.contains(b[0]));
        assert(a.contains(b[0]));
        lemma_increasing_head(a, b);
        let q = |t: Seq<char>| p(t) && t != a[0];
        lemma_rest_is_list(a, p, q);
        lemma_rest_is_list(b, p, q);
        a_list_is_determined(a.drop_first(), b.drop_first(), q);
        assert(a =~= seq![a[0]] + a.drop_first());
        assert(b =~= seq![b[0]] + b.drop_first());
    }
}

proof fn lemma_rest_is_list(
    a: Seq<Seq<char>>,
    p: spec_fn(Seq<char>) -> bool,
    q: spec_fn(Seq<char>) -> bool,
)
    requires
        is_list_of(a, p),
        a.len() > 0,
        forall|t: Seq<char>| #[trigger] q(t) <==> (p(t) && t != a[0]),
    ensures
        is_list_of(a.drop_first(), q),
{
    let r = a.drop_first();
    assert forall|t: Seq<char>| #[trigger] r.contains(t) <==> q(t) by {
        if r.contains(t) {
            let i = choose|i: int| 0 <= i < r.len() && r[i] == t;
            assert(a[i + 1] == t);
            assert(a.contains(t));
            assert(text_lt(a[0], a[i + 1]));
            lemma_text_lt_irreflexive(t);
        }
        if q(t) {
            assert(a.contains(t));
            let i = choose|i: int| 0 <= i < a.len() && a[i] == t;
            assert(r[i - 1] == t);
        }
    }
}

fn insert_text(out: &mut Vec<String>, t: &str)
    requires
        increasing(strs(old(out)@)),
    ensures
        increasing(strs(final(out)@)),
        forall|x: Seq<char>|
            #[trigger] strs(final(out)@).contains(x) <==> strs(old(out)@).contains(x) || x == t@,
{
    let ghost s = strs(out@);
    let mut p: usize = out.len();
    while p > 0 && text_less(t, out[p - 1].as_str())
        invariant
            s == strs(out@),
            p <= out@.len(),
            forall|k: int| p <= k < out@.len() ==> text_lt(t@, #[trigger] s[k]),
        decreases p,
    {
        assert(s[p - 1] == out@[p - 1]@);
        p = p - 1;
    }
    if p > 0 && same(out[p - 1].as_str(), t) {
        assert(s[p - 1] == t@);
        return;
    }
    proof {
        if p > 0 {
            assert(s[p - 1] == out@[p - 1]@);
            lemma_text_lt_total(s[p - 1], t@);
        }
        assert forall|k: int| 0 <= k < p implies text_lt(#[trigger] s[k], t@) by {
            if k < p - 1 {
                assert(text_lt(s[k], s[p - 1]));
                lemma_text_lt_transitive(s[k], s[p - 1], t@);
            }
        }
    }
    out.insert(p, t.to_owned());
    let ghost f = s.insert(p as int, t@);
    proof {
        assert(strs(out@) =~= f);
        assert forall|x: Seq<char>| #[trigger] f.contains(x) <==> s.contains(x) || x == t@ by {
            if s.contains(x) {
                let i = choose|i: int| 0 <= i < s.len() && s[i] == x;
                if i < p {
                    assert(f[i] == x);
                } else {
                    assert(f[i + 1] == x);
                }
            }
            if x == t@ {
                assert(f[p as int] == x);
            }
            if f.contains(x) {
                let i = choose|i: int| 0 <= i < f.len() && f[i] == x;
                if i < p {
                    assert(s[i] == x);
                } else if i > p {
                    assert(s[i - 1] == x);
                }
            }
        }
        assert forall|i: int, j: int| 0 <= i < j < f.len() implies text_lt(
            #[trigger] f[i],
            #[trigger] f[j],
        ) by {
            let a = if i < p {
                i
            } else {
                i - 1
            };
            let b = if j < p {
                j
            } else {
                j - 1
            };
            if i != p && j != p {
                assert(f[i] == s[a] && f[j] == s[b]);
            } else if i == p {
                assert(f[j] == s[b]);
            } else {
                assert(f[i] == s[a]);
            }
        }
    }
}

fn parts_less(a: &Vec<String>, b: &Vec<String>) -> (r: bool)
    ensures
        r == parts_lt(strs(a@), strs(b@)),
{
    let ghost x = strs(a@);
    let ghost y = strs(b@);
    let mut i: usize = 0;
    assert(x.skip(0) =~= x);
    assert(y.skip(0) =~= y);
    while i < a.len() && i < b.len() && same(a[i].as_str(), b[i].as_str())
        invariant
            x == strs(a@),
            y == strs(b@),
            i <= x.len(),
            i <= y.len(),
            parts_lt(x, y) == parts_lt(x.skip(i as int), y.skip(i as int)),
        decreases x.len() - i,
    {
        assert(x.skip(i as int).drop_first() =~= x.skip(i + 1));
        assert(y.skip(i as int).drop_first() =~= y.skip(i + 1));
        i += 1;
    }
    if i >= b.len() {
        false
    } else if i >= a.len() {
        true
    } else {
        assert(x.skip(i as int)[0] == a@[i as int]@);
        assert(y.skip(i as int)[0] == b@[i as int]@);
        text_less(a[i].as_str(), b[i].as_str())
    }
}

fn stands_before(order: Order, a: &GraphNode, b: &GraphNode) -> (r: bool)
    ensures
        r == precedes(order, *a, *b),
{
    match order {
        Order::Path => text_less(a.path.as_str(), b.path.as_str()) || (same(
            a.path.as_str(),
            b.path.as_str(),
        ) && a.id < b.id),
        Order::Parts => {
            let x = split(a.path.as_str(), '/');
            let y = split(b.path.as_str(), '/');
            parts_less(&x, &y)
        },
    }
}

pub open spec fn ints(v: Seq<usize>) -> Seq<int> {
    Seq::new(v.len(), |i: int| v[i] as int)
}

/// Every index is that of a node.
pub open spec fn within(s: Seq<int>, n: nat) -> bool {
    forall|i: int| 0 <= i < s.len() ==> 0 <= #[trigger] s[i] < n
}

proof fn lemma_inserted(nodes: Seq<GraphNode>, order: Order, s: Seq<int>, i: int, p: int)
    requires
        0 <= p <= s.len(),
        forall|k: int| p <= k < s.len() ==> precedes(order, nodes[i], nodes[#[trigger] s[k]]),
        p > 0 ==> !precedes(order, nodes[i], nodes[s[p - 1]]),
    ensures
        inserted(nodes, order, s, i) == s.insert(p, i),
    decreases s.len(),
{
    if p == s.len() {
        assert(s.insert(p, i) =~= s.push(i));
    } else {
        assert(precedes(order, nodes[i], nodes[s[s.len() - 1]]));
        lemma_inserted(nodes, order, s.drop_last(), i, p);
        assert(s.drop_last().insert(p, i).push(s.last()) =~= s.insert(p, i));
    }
}

/// Puts the indices in order; those that are equal in it keep their sequence.
pub fn rank(nodes: &Vec<GraphNode>, order: Order, picked: &Vec<usize>) -> (r: Vec<usize>)
    requires
        within(ints(picked@), nodes@.len()),
    ensures
        ints(r@) == ranked(nodes@, order, ints(picked@)),
        within(ints(r@), nodes@.len()),
{
    let ghost all = ints(picked@);
    let mut out: Vec<usize> = Vec::new();
    assert(ints(out@) =~= ranked(nodes@, order, all.take(0)));
    for n in 0..picked.len()
        invariant
            all == ints(picked@),
            within(all, nodes@.len()),
            ints(out@) == ranked(nodes@, order, all.take(n as int)),
            within(ints(out@), nodes@.len()),
    {
        let i: usize = picked[n];
        let ghost s = ints(out@);
        assert(all[n as int] == i);
        assert(all.take(n + 1).drop_last() =~= all.take(n as int));
        let mut p: usize = out.len();
        assert forall|k: int| 0 <= k < out@.len() implies #[trigger] out@[k] < nodes@.len() by {
            assert(s[k] == out@[k]);
        }
        while p > 0 && stands_before(order, &nodes[i], &nodes[out[p - 1]])
            invariant
                s == ints(out@),
                i < nodes@.len(),
                forall|k: int| 0 <= k < out@.len() ==> #[trigger] out@[k] < nodes@.len(),
                p <= out@.len(),
                forall|k: int|
                    p <= k < s.len() ==> precedes(
                        order,
                        nodes@[i as int],
                        nodes@[#[trigger] s[k]],
                    ),
            decreases p,
        {
            p = p - 1;
        }
        proof {
            if p > 0 {
                assert(s[p - 1] == out@[p - 1]);
            }
            lemma_inserted(nodes@, order, s, i as int, p as int);
        }
        out.insert(p, i);
        assert(ints(out@) =~= s.insert(p as int, i as int));
    }
    assert(all.take(picked@.len() as int) =~= all);
    out
}

/// Takes out each index whose node has the id of the one before.
fn drop_repeats(nodes: &Vec<GraphNode>, s: &Vec<usize>) -> (r: Vec<usize>)
    requires
        within(ints(s@), nodes@.len()),
    ensures
        ints(r@) == distinct(nodes@, ints(s@)),
        within(ints(r@), nodes@.len()),
{
    let ghost all = ints(s@);
    let mut out: Vec<usize> = Vec::new();
    assert(ints(out@) =~= distinct(nodes@, all.take(0)));
    for n in 0..s.len()
        invariant
            all == ints(s@),
            within(all, nodes@.len()),
            ints(out@) == distinct(nodes@, all.take(n as int)),
            within(ints(out@), nodes@.len()),
    {
        assert(all.take(n + 1).drop_last() =~= all.take(n as int));
        let i: usize = s[n];
        assert(all[n as int] == i);
        let ghost d = ints(out@);
        let k: usize = out.len();
        let mut repeat: bool = false;
        if k > 0 {
            let before: usize = out[k - 1];
            assert(d.last() == before);
            repeat = nodes[before].id == nodes[i].id;
        }
        if !repeat {
            out.push(i);
            assert(ints(out@) =~= d.push(i as int));
        }
    }
    assert(all.take(s@.len() as int) =~= all);
    out
}

/// A held graph.
#[derive(Debug)]
pub struct Graph {
    g: WireGraph,
    by_id: HashMap<u128, u32>,
}

/// The index finds, for each id, what [`index_of`] says.
pub open spec fn indexes(m: Map<u128, u32>, nodes: Seq<GraphNode>) -> bool {
    forall|id: u128|
        match last_with(nodes, id) {
            Some(k) => #[trigger] m.contains_key(id) && m[id] == #[verifier::truncate] (k as u32),
            None => !m.contains_key(id),
        }
}

impl Graph {
    #[verifier::type_invariant]
    spec fn inv(self) -> bool {
        indexes(self.by_id@, self.g.nodes@)
    }

    /// The graph as it was delivered.
    pub closed spec fn wire(&self) -> WireGraph {
        self.g
    }

    pub fn new(g: WireGraph) -> (r: Graph)
        ensures
            r.wire() == g,
    {
        let mut by_id: HashMap<u128, u32> = HashMap::new();
        let ghost all = g.nodes@;
        for i in 0..g.nodes.len()
            invariant
                all == g.nodes@,
                indexes(by_id@, all.take(i as int)),
        {
            let ghost before = all.take(i as int);
            let ghost after = all.take(i + 1);
            assert(after.drop_last() =~= before);
            assert(after.last() == all[i as int]);
            let at: u32 = #[verifier::truncate] (i as u32);
            let ghost was = by_id@;
            by_id.insert(g.nodes[i].id, at);
            assert(indexes(by_id@, after)) by {
                assert forall|id: u128|
                    match last_with(after, id) {
                        Some(k) => #[trigger] by_id@.contains_key(id) && by_id@[id] == #[verifier::truncate] (k as u32),
                        None => !by_id@.contains_key(id),
                    } by {
                    let old_contains = was.contains_key(id);
                }
            }
        }
        assert(all.take(g.nodes@.len() as int) =~= all);
        Graph { g, by_id }
    }

    /// The graph as it was delivered.
    pub fn held(&self) -> (r: &WireGraph)
        ensures
            *r == self.wire(),
    {
        &self.g
    }

    /// The index of a node id.
    pub fn idx(&self, id: u128) -> (r: Option<u32>)
        ensures
            r == index_of(self.wire(), id),
    {
        proof {
            use_type_invariant(self);
        }
        match self.by_id.get(&id) {
            Some(i) => {
                assert(self.by_id@.contains_key(id));
                Some(*i)
            },
            None => {
                assert(!self.by_id@.contains_key(id));
                None
            },
        }
    }

    /// What the graph says of a node, in the trash or not.
    pub fn node(&self, id: u128) -> (r: Option<&GraphNode>)
        ensures
            match r {
                Some(n) => index_of(self.wire(), id) is Some && index_of(self.wire(), id)->0
                    < self.wire().nodes@.len() && *n == self.wire().nodes@[index_of(
                    self.wire(),
                    id,
                )->0 as int],
                None => index_of(self.wire(), id) is None || index_of(self.wire(), id)->0
                    >= self.wire().nodes@.len(),
            },
    {
        match self.idx(id) {
            Some(i) => {
                let k: usize = i as usize;
                if k < self.g.nodes.len() {
                    Some(&self.g.nodes[k])
                } else {
                    None
                }
            },
            None => None,
        }
    }

    fn live(&self, i: u32) -> (r: bool)
        ensures
            r == is_live(self.wire(), i),
    {
        let k: usize = i as usize;
        k < self.g.nodes.len() && !self.g.nodes[k].trashed
    }

    fn picked(&self, ask: Ask, at: u32, e: &GraphEdge) -> (r: Option<u32>)
        ensures
            match r {
                Some(k) => pick(self.wire(), ask, at, *e) == Some(k as int) && k
                    < self.wire().nodes@.len(),
                None => pick(self.wire(), ask, at, *e) is None,
            },
    {
        match ask {
            Ask::Back => match e.dst {
                Some(d) => if d == at && self.live(e.src) {
                    Some(e.src)
                } else {
                    None
                },
                None => None,
            },
            Ask::Forward => match e.dst {
                Some(d) => if e.src == at && d != at && self.live(d) {
                    Some(d)
                } else {
                    None
                },
                None => None,
            },
            Ask::Embeds => match e.att {
                Some(a) => if e.src == at && self.live(a) {
                    Some(a)
                } else {
                    None
                },
                None => None,
            },
            Ask::Embedders => match e.att {
                Some(a) => if a == at && self.live(e.src) {
                    Some(e.src)
                } else {
                    None
                },
                None => None,
            },
        }
    }

    /// The nodes of an answer about an id.
    fn answered(&self, ask: Ask, id: u128) -> (r: Vec<usize>)
        ensures
            ints(r@) == answer(self.wire(), ask, id),
            within(ints(r@), self.wire().nodes@.len()),
    {
        let mut found: Vec<usize> = Vec::new();
        assert(ints(found@) =~= Seq::empty());
        let at: u32 = match self.idx(id) {
            Some(i) => i,
            None => return found,
        };
        if ask == Ask::Embeds && !self.live(at) {
            return found;
        }
        let ghost g = self.wire();
        for j in 0..self.g.edges.len()
            invariant
                g == self.wire(),
                ints(found@) == picks(g, ask, at, j as nat),
                within(ints(found@), g.nodes@.len()),
        {
            let ghost before = ints(found@);
            match self.picked(ask, at, &self.g.edges[j]) {
                Some(k) => {
                    found.push(k as usize);
                    assert(ints(found@) =~= before.push(k as int));
                },
                None => {},
            }
        }
        let sorted = rank(&self.g.nodes, Order::Path, &found);
        drop_repeats(&self.g.nodes, &sorted)
    }

    fn noted(&self, ask: Ask, id: u128) -> (r: Vec<NoteRef>)
        ensures
            notes_of(r@) == notes_at(self.wire().nodes@, answer(self.wire(), ask, id)),
    {
        let at = self.answered(ask, id);
        let ghost want = notes_at(self.wire().nodes@, ints(at@));
        let mut out: Vec<NoteRef> = Vec::new();
        assert(notes_of(out@) =~= want.take(0));
        for i in 0..at.len()
            invariant
                want == notes_at(self.wire().nodes@, ints(at@)),
                within(ints(at@), self.wire().nodes@.len()),
                notes_of(out@) == want.take(i as int),
        {
            let k: usize = at[i];
            assert(ints(at@)[i as int] == k);
            let n = &self.g.nodes[k];
            out.push(NoteRef { id: n.id, name: n.name.clone(), path: n.path.clone() });
            assert(out@.last().view() == want[i as int]);
            assert(notes_of(out@) =~= want.take(i as int).push(want[i as int]));
            assert(notes_of(out@) =~= want.take(i + 1));
        }
        assert(want.take(at@.len() as int) =~= want);
        out
    }

    /// The live notes that link to `id`, itself among them where it does.
    pub fn backlinks(&self, id: u128) -> (r: Vec<NoteRef>)
        ensures
            notes_of(r@) == notes_at(self.wire().nodes@, answer(self.wire(), Ask::Back, id)),
    {
        self.noted(Ask::Back, id)
    }

    /// The live notes that `id` links to, itself excluded. A note in the trash still has its
    /// links.
    pub fn forward_links(&self, id: u128) -> (r: Vec<NoteRef>)
        ensures
            notes_of(r@) == notes_at(self.wire().nodes@, answer(self.wire(), Ask::Forward, id)),
    {
        self.noted(Ask::Forward, id)
    }

    /// The live attachments that a live note embeds.
    pub fn attachment_embeds(&self, id: u128) -> (r: Vec<FileRef>)
        ensures
            files_of(r@) == files_at(self.wire().nodes@, answer(self.wire(), Ask::Embeds, id)),
    {
        let at = self.answered(Ask::Embeds, id);
        let ghost want = files_at(self.wire().nodes@, ints(at@));
        let mut out: Vec<FileRef> = Vec::new();
        assert(files_of(out@) =~= want.take(0));
        for i in 0..at.len()
            invariant
                want == files_at(self.wire().nodes@, ints(at@)),
                within(ints(at@), self.wire().nodes@.len()),
                files_of(out@) == want.take(i as int),
        {
            let k: usize = at[i];
            assert(ints(at@)[i as int] == k);
            let n = &self.g.nodes[k];
            out.push(
                FileRef {
                    id: n.id,
                    name: n.name.clone(),
                    path: n.path.clone(),
                    mime: clone_opt(&n.mime),
                    size: n.content_bytes,
                },
            );
            assert(out@.last().view() == want[i as int]);
            assert(files_of(out@) =~= want.take(i as int).push(want[i as int]));
            assert(files_of(out@) =~= want.take(i + 1));
        }
        assert(want.take(at@.len() as int) =~= want);
        out
    }

    /// The live notes that embed an attachment, whether or not that is in the trash.
    pub fn attachment_embedders(&self, id: u128) -> (r: Vec<NoteRef>)
        ensures
            notes_of(r@) == notes_at(self.wire().nodes@, answer(self.wire(), Ask::Embedders, id)),
    {
        self.noted(Ask::Embedders, id)
    }

    /// The dangling targets that are written in a note.
    pub fn unresolved_refs(&self, id: u128) -> (r: Vec<String>)
        ensures
            is_list_of(strs(r@), |t: Seq<char>| is_unresolved(self.wire(), id, t)),
    {
        let mut out: Vec<String> = Vec::new();
        assert(strs(out@) =~= Seq::empty());
        let at: u32 = match self.idx(id) {
            Some(i) => i,
            None => return out,
        };
        let ghost es = self.wire().edges@;
        for j in 0..self.g.edges.len()
            invariant
                es == self.wire().edges@,
                increasing(strs(out@)),
                forall|t: Seq<char>|
                    #[trigger] strs(out@).contains(t) <==> exists|k: int|
                        0 <= k < j && dangles(#[trigger] es[k], at) && es[k].dst_ref@ == t,
        {
            let e = &self.g.edges[j];
            assert(*e == es[j as int]);
            let ghost before = strs(out@);
            if e.src == at && e.dst.is_none() && !e.dst_ref.as_str().is_empty() && (same(
                e.kind.as_str(),
                "wikilink",
            ) || same(e.kind.as_str(), "markdown")) {
                assert(dangles(es[j as int], at));
                insert_text(&mut out, e.dst_ref.as_str());
            }
            assert forall|t: Seq<char>|
                #[trigger] strs(out@).contains(t) <==> exists|k: int|
                    0 <= k < j + 1 && dangles(#[trigger] es[k], at) && es[k].dst_ref@ == t by {
                if exists|k: int|
                    0 <= k < j + 1 && dangles(#[trigger] es[k], at) && es[k].dst_ref@ == t {
                    let k = choose|k: int|
                        0 <= k < j + 1 && dangles(#[trigger] es[k], at) && es[k].dst_ref@ == t;
                    if k < j {
                        assert(before.contains(t));
                    }
                }
            }
        }
        out
    }

    /// The tags of a live note; a node in the trash has none.
    pub fn tags(&self, id: u128) -> (r: Vec<String>)
        ensures
            is_list_of(strs(r@), |t: Seq<char>| is_tagged(self.wire(), id, t)),
    {
        let mut out: Vec<String> = Vec::new();
        assert(strs(out@) =~= Seq::empty());
        let at: u32 = match self.idx(id) {
            Some(i) => i,
            None => return out,
        };
        if !self.live(at) {
            return out;
        }
        let ghost ts = self.wire().tags@;
        for j in 0..self.g.tags.len()
            invariant
                ts == self.wire().tags@,
                increasing(strs(out@)),
                forall|t: Seq<char>|
                    #[trigger] strs(out@).contains(t) <==> exists|k: int|
                        0 <= k < j && (#[trigger] ts[k]).node == at && ts[k].tag@ == t,
        {
            let ghost before = strs(out@);
            let tag = &self.g.tags[j];
            assert(*tag == ts[j as int]);
            if tag.node == at {
                insert_text(&mut out, tag.tag.as_str());
            }
            assert forall|t: Seq<char>|
                #[trigger] strs(out@).contains(t) <==> exists|k: int|
                    0 <= k < j + 1 && (#[trigger] ts[k]).node == at && ts[k].tag@ == t by {
                if exists|k: int|
                    0 <= k < j + 1 && (#[trigger] ts[k]).node == at && ts[k].tag@ == t {
                    let k = choose|k: int|
                        0 <= k < j + 1 && (#[trigger] ts[k]).node == at && ts[k].tag@ == t;
                    if k < j {
                        assert(before.contains(t));
                    }
                }
            }
        }
        out
    }
}

/// No two nodes have one id.
pub open spec fn ids_are_unique(nodes: Seq<GraphNode>) -> bool {
    forall|i: int, j: int|
        0 <= i < j < nodes.len() ==> (#[trigger] nodes[i]).id != (#[trigger] nodes[j]).id
}

/// None of the indices stands before an earlier one.
pub open spec fn in_order(nodes: Seq<GraphNode>, order: Order, s: Seq<int>) -> bool {
    forall|i: int, j: int|
        0 <= i < j < s.len() ==> !precedes(
            order,
            nodes[#[trigger] s[j]],
            nodes[#[trigger] s[i]],
        )
}

/// What does not come after another, nor that after a third, does not come after the third.
pub proof fn lemma_parts_lt_weak(a: Seq<Seq<char>>, b: Seq<Seq<char>>, c: Seq<Seq<char>>)
    requires
        !parts_lt(b, a),
        !parts_lt(c, b),
    ensures
        !parts_lt(c, a),
        a == c ==> a == b,
    decreases a.len(),
{
    if a.len() == 0 {
        if c.len() == 0 {
            assert(a =~= c);
            assert(b =~= c);
        }
    } else if b.len() == 0 {
    } else if c.len() == 0 {
    } else {
        lemma_text_lt_total(a[0], b[0]);
        lemma_text_lt_total(b[0], c[0]);
        lemma_text_lt_irreflexive(a[0]);
        if a[0] == b[0] && b[0] == c[0] {
            lemma_parts_lt_weak(a.drop_first(), b.drop_first(), c.drop_first());
            assert(a =~= seq![a[0]] + a.drop_first());
            assert(b =~= seq![b[0]] + b.drop_first());
            assert(c =~= seq![c[0]] + c.drop_first());
        } else {
            if a[0] != b[0] && b[0] != c[0] {
                lemma_text_lt_transitive(a[0], b[0], c[0]);
            }
            if text_lt(c[0], a[0]) {
                lemma_text_lt_transitive(a[0], c[0], a[0]);
            }
        }
    }
}

proof fn lemma_weak(order: Order, a: GraphNode, b: GraphNode, c: GraphNode)
    requires
        !precedes(order, b, a),
        !precedes(order, c, b),
    ensures
        !precedes(order, c, a),
{
    match order {
        Order::Path => {
            lemma_text_lt_total(a.path@, b.path@);
            lemma_text_lt_total(b.path@, c.path@);
            lemma_text_lt_irreflexive(a.path@);
            lemma_text_lt_irreflexive(c.path@);
            if text_lt(a.path@, b.path@) && text_lt(b.path@, c.path@) {
                lemma_text_lt_transitive(a.path@, b.path@, c.path@);
            }
            if text_lt(c.path@, a.path@) {
                if text_lt(a.path@, c.path@) {
                    lemma_text_lt_transitive(a.path@, c.path@, a.path@);
                }
            }
        },
        Order::Parts => {
            lemma_parts_lt_weak(
                split_of(a.path@, '/'),
                split_of(b.path@, '/'),
                split_of(c.path@, '/'),
            );
        },
    }
}

proof fn lemma_asymmetric(order: Order, a: GraphNode, b: GraphNode)
    requires
        precedes(order, a, b),
    ensures
        !precedes(order, b, a),
{
    match order {
        Order::Path => {
            lemma_text_lt_irreflexive(a.path@);
            if text_lt(a.path@, b.path@) && text_lt(b.path@, a.path@) {
                lemma_text_lt_transitive(a.path@, b.path@, a.path@);
            }
        },
        Order::Parts => {
            lemma_parts_lt_asymmetric(split_of(a.path@, '/'), split_of(b.path@, '/'));
        },
    }
}

proof fn lemma_parts_lt_asymmetric(a: Seq<Seq<char>>, b: Seq<Seq<char>>)
    requires
        parts_lt(a, b),
    ensures
        !parts_lt(b, a),
    decreases a.len(),
{
    if a.len() > 0 {
        if a[0] != b[0] {
            lemma_text_lt_irreflexive(a[0]);
            if text_lt(b[0], a[0]) {
                lemma_text_lt_transitive(a[0], b[0], a[0]);
            }
        } else {
            lemma_parts_lt_asymmetric(a.drop_first(), b.drop_first());
        }
    }
}

proof fn lemma_inserted_keeps(nodes: Seq<GraphNode>, order: Order, s: Seq<int>, i: int)
    requires
        in_order(nodes, order, s),
    ensures
        in_order(nodes, order, inserted(nodes, order, s, i)),
        inserted(nodes, order, s, i).len() == s.len() + 1,
        forall|k: int| #[trigger]
            inserted(nodes, order, s, i).contains(k) <==> s.contains(k) || k == i,
    decreases s.len(),
{
    let r = inserted(nodes, order, s, i);
    if s.len() > 0 && precedes(order, nodes[i], nodes[s.last()]) {
        let t = s.drop_last();
        assert(in_order(nodes, order, t));
        lemma_inserted_keeps(nodes, order, t, i);
        let u = inserted(nodes, order, t, i);
        assert(r == u.push(s.last()));
        assert forall|k: int| #[trigger] r.contains(k) <==> s.contains(k) || k == i by {
            if r.contains(k) {
                let m = choose|m: int| 0 <= m < r.len() && r[m] == k;
                if m < u.len() {
                    assert(u[m] == k);
                    assert(u.contains(k));
                    if t.contains(k) {
                        let q = choose|q: int| 0 <= q < t.len() && t[q] == k;
                        assert(s[q] == k);
                    }
                } else {
                    assert(s[s.len() - 1] == k);
                }
            }
            if s.contains(k) {
                let m = choose|m: int| 0 <= m < s.len() && s[m] == k;
                if m < t.len() {
                    assert(t[m] == k);
                    assert(t.contains(k));
                    assert(u.contains(k));
                    let q = choose|q: int| 0 <= q < u.len() && u[q] == k;
                    assert(r[q] == k);
                } else {
                    assert(r[r.len() - 1] == k);
                }
            }
            if k == i {
                assert(u.contains(k));
                let q = choose|q: int| 0 <= q < u.len() && u[q] == k;
                assert(r[q] == k);
            }
        }
        assert forall|a: int, b: int| 0 <= a < b < r.len() implies !precedes(
            order,
            nodes[#[trigger] r[b]],
            nodes[#[trigger] r[a]],
        ) by {
            if b < u.len() {
                assert(r[a] == u[a] && r[b] == u[b]);
            } else {
                assert(r[a] == u[a]);
                assert(u.contains(u[a]));
                if u[a] == i {
                    lemma_asymmetric(order, nodes[i], nodes[s.last()]);
                } else {
                    let q = choose|q: int| 0 <= q < t.len() && t[q] == u[a];
                    assert(s[q] == u[a] && s[s.len() - 1] == r[b]);
                }
            }
        }
    } else {
        assert(r == s.push(i));
        assert forall|k: int| #[trigger] r.contains(k) <==> s.contains(k) || k == i by {
            if s.contains(k) {
                let m = choose|m: int| 0 <= m < s.len() && s[m] == k;
                assert(r[m] == k);
            }
            if k == i {
                assert(r[r.len() - 1] == k);
            }
            if r.contains(k) {
                let m = choose|m: int| 0 <= m < r.len() && r[m] == k;
                if m < s.len() {
                    assert(s[m] == k);
                }
            }
        }
        assert forall|a: int, b: int| 0 <= a < b < r.len() implies !precedes(
            order,
            nodes[#[trigger] r[b]],
            nodes[#[trigger] r[a]],
        ) by {
            if b < s.len() {
                assert(r[a] == s[a] && r[b] == s[b]);
            } else if a < s.len() - 1 {
                assert(s[a] == r[a] && s[s.len() - 1] == s.last());
                assert(!precedes(order, nodes[s[s.len() - 1]], nodes[s[a]]));
                lemma_weak(order, nodes[s[a]], nodes[s.last()], nodes[i]);
            }
        }
    }
}

/// Ranking puts the indices in order, and neither adds nor drops one.
pub proof fn ranking_orders_and_keeps(nodes: Seq<GraphNode>, order: Order, s: Seq<int>)
    ensures
        in_order(nodes, order, ranked(nodes, order, s)),
        ranked(nodes, order, s).len() == s.len(),
        forall|k: int| #[trigger] ranked(nodes, order, s).contains(k) <==> s.contains(k),
    decreases s.len(),
{
    if s.len() > 0 {
        let t = s.drop_last();
        ranking_orders_and_keeps(nodes, order, t);
        lemma_inserted_keeps(nodes, order, ranked(nodes, order, t), s.last());
        assert forall|k: int| #[trigger] ranked(nodes, order, s).contains(k) <==> s.contains(k) by {
            if s.contains(k) {
                let m = choose|m: int| 0 <= m < s.len() && s[m] == k;
                if m < t.len() {
                    assert(t[m] == k);
                    assert(t.contains(k));
                    assert(ranked(nodes, order, t).contains(k));
                }
            }
            if ranked(nodes, order, s).contains(k) {
                if ranked(nodes, order, t).contains(k) {
                    let m = choose|m: int| 0 <= m < t.len() && t[m] == k;
                    assert(s[m] == k);
                } else {
                    assert(s[s.len() - 1] == k);
                }
            }
        }
    }
}

/// Some index of the list is that of a node with this id.
pub open spec fn names(nodes: Seq<GraphNode>, s: Seq<int>, id: u128) -> bool {
    exists|k: int| 0 <= k < s.len() && nodes[#[trigger] s[k]].id == id
}

proof fn lemma_distinct(nodes: Seq<GraphNode>, order: Order, s: Seq<int>)
    requires
        in_order(nodes, order, s),
    ensures
        in_order(nodes, order, distinct(nodes, s)),
        forall|k: int| #[trigger] distinct(nodes, s).contains(k) ==> s.contains(k),
        forall|id: u128| #[trigger] names(nodes, s, id) <==> names(nodes, distinct(nodes, s), id),
        forall|k: int|
            0 <= k < distinct(nodes, s).len() - 1 ==> nodes[#[trigger] distinct(nodes, s)[k]].id
                != nodes[distinct(nodes, s)[k + 1]].id,
    decreases s.len(),
{
    if s.len() > 0 {
        let t = s.drop_last();
        assert(in_order(nodes, order, t));
        lemma_distinct(nodes, order, t);
        let d = distinct(nodes, t);
        let r = distinct(nodes, s);
        assert forall|k: int| d.contains(k) implies #[trigger] s.contains(k) by {
            assert(t.contains(k));
            let m = choose|m: int| 0 <= m < t.len() && t[m] == k;
            assert(s[m] == k);
        }
        assert(s[s.len() - 1] == s.last());
        assert forall|k: int| #[trigger] r.contains(k) implies s.contains(k) by {
            let m = choose|m: int| 0 <= m < r.len() && r[m] == k;
            if m < d.len() {
                assert(d[m] == k);
                assert(d.contains(k));
            }
        }
        assert forall|id: u128| #[trigger] names(nodes, s, id) <==> names(nodes, r, id) by {
            assert(names(nodes, t, id) <==> names(nodes, d, id));
            if names(nodes, t, id) {
                let m = choose|m: int| 0 <= m < d.len() && nodes[#[trigger] d[m]].id == id;
                assert(r[m] == d[m]);
            }
            if names(nodes, s, id) {
                let m = choose|m: int| 0 <= m < s.len() && nodes[#[trigger] s[m]].id == id;
                if m < t.len() {
                    assert(t[m] == s[m]);
                    assert(names(nodes, t, id));
                } else {
                    if r == d {
                        assert(nodes[d[d.len() - 1]].id == id);
                        assert(r[d.len() - 1] == d[d.len() - 1]);
                    } else {
                        assert(r[r.len() - 1] == s.last());
                    }
                }
            }
            if names(nodes, r, id) {
                let m = choose|m: int| 0 <= m < r.len() && nodes[#[trigger] r[m]].id == id;
                assert(r.contains(r[m]));
                assert(s.contains(r[m]));
                let q = choose|q: int| 0 <= q < s.len() && s[q] == r[m];
                assert(nodes[s[q]].id == id);
            }
        }
        assert forall|a: int, b: int| 0 <= a < b < r.len() implies !precedes(
            order,
            nodes[#[trigger] r[b]],
            nodes[#[trigger] r[a]],
        ) by {
            if b < d.len() {
                assert(r[a] == d[a] && r[b] == d[b]);
            } else {
                assert(d.contains(d[a]));
                assert(t.contains(d[a]));
                let q = choose|q: int| 0 <= q < t.len() && t[q] == d[a];
                assert(s[q] == r[a] && s[s.len() - 1] == r[b]);
            }
        }
        assert forall|k: int| 0 <= k < r.len() - 1 implies nodes[#[trigger] r[k]].id
            != nodes[r[k + 1]].id by {
            if k + 1 < d.len() {
                assert(r[k] == d[k] && r[k + 1] == d[k + 1]);
            } else {
                assert(r[k] == d.last());
            }
        }
    }
}

/// A link contributes the node at `k` to the answer.
pub open spec fn is_linked(g: WireGraph, ask: Ask, at: u32, k: int) -> bool {
    exists|j: int| 0 <= j < g.edges@.len() && pick(g, ask, at, #[trigger] g.edges@[j]) == Some(k)
}

proof fn lemma_picks(g: WireGraph, ask: Ask, at: u32, n: nat)
    requires
        n <= g.edges@.len(),
    ensures
        forall|k: int| #[trigger]
            picks(g, ask, at, n).contains(k) <==> exists|j: int|
                0 <= j < n && pick(g, ask, at, #[trigger] g.edges@[j]) == Some(k),
        within(picks(g, ask, at, n), g.nodes@.len()),
    decreases n,
{
    if n > 0 {
        let m = (n - 1) as nat;
        lemma_picks(g, ask, at, m);
        let before = picks(g, ask, at, m);
        let after = picks(g, ask, at, n);
        assert forall|k: int| #[trigger]
            after.contains(k) <==> exists|j: int|
                0 <= j < n && pick(g, ask, at, #[trigger] g.edges@[j]) == Some(k) by {
            if after.contains(k) {
                let q = choose|q: int| 0 <= q < after.len() && after[q] == k;
                if q < before.len() {
                    assert(before[q] == k);
                    assert(before.contains(k));
                } else {
                    assert(pick(g, ask, at, g.edges@[n - 1]) == Some(k));
                }
            }
            if exists|j: int| 0 <= j < n && pick(g, ask, at, #[trigger] g.edges@[j]) == Some(k) {
                let j = choose|j: int|
                    0 <= j < n && pick(g, ask, at, #[trigger] g.edges@[j]) == Some(k);
                if j < m {
                    assert(before.contains(k));
                    let q = choose|q: int| 0 <= q < before.len() && before[q] == k;
                    assert(after[q] == k);
                } else {
                    assert(after[after.len() - 1] == k);
                }
            }
        }
    }
}

/// An answer names exactly the nodes that a link contributes, whatever their order and however
/// often they are linked.
pub proof fn an_answer_names_what_is_linked(g: WireGraph, ask: Ask, at: u32, id: u128)
    ensures
        names(g.nodes@, answer_at(g, ask, at), id) <==> exists|k: int| #[trigger]
            is_linked(g, ask, at, k) && g.nodes@[k].id == id,
        within(answer_at(g, ask, at), g.nodes@.len()),
{
    let nodes = g.nodes@;
    let p = picks(g, ask, at, g.edges@.len());
    let r = ranked(nodes, Order::Path, p);
    let d = answer_at(g, ask, at);
    lemma_picks(g, ask, at, g.edges@.len());
    ranking_orders_and_keeps(nodes, Order::Path, p);
    lemma_distinct(nodes, Order::Path, r);
    assert(names(nodes, r, id) <==> names(nodes, d, id));
    if names(nodes, r, id) {
        let m = choose|m: int| 0 <= m < r.len() && nodes[#[trigger] r[m]].id == id;
        assert(r.contains(r[m]));
        assert(p.contains(r[m]));
        assert(is_linked(g, ask, at, r[m]));
    }
    if exists|k: int| #[trigger] is_linked(g, ask, at, k) && nodes[k].id == id {
        let k = choose|k: int| #[trigger] is_linked(g, ask, at, k) && nodes[k].id == id;
        assert(p.contains(k));
        assert(r.contains(k));
        let m = choose|m: int| 0 <= m < r.len() && r[m] == k;
        assert(nodes[r[m]].id == id);
    }
    assert forall|i: int| 0 <= i < d.len() implies 0 <= #[trigger] d[i] < nodes.len() by {
        assert(d.contains(d[i]));
        assert(r.contains(d[i]));
        assert(p.contains(d[i]));
        let q = choose|q: int| 0 <= q < p.len() && p[q] == d[i];
        assert(0 <= p[q] < nodes.len());
    }
}

/// Where ids are unique, an answer is in increasing order of path and id, and names each node
/// once.
pub proof fn an_answer_is_in_order_and_without_repeats(g: WireGraph, ask: Ask, at: u32)
    requires
        ids_are_unique(g.nodes@),
    ensures
        forall|i: int, j: int|
            #![trigger answer_at(g, ask, at)[i], answer_at(g, ask, at)[j]]
            0 <= i < j < answer_at(g, ask, at).len() ==> precedes(
                Order::Path,
                g.nodes@[answer_at(g, ask, at)[i]],
                g.nodes@[answer_at(g, ask, at)[j]],
            ),
        forall|i: int, j: int|
            #![trigger answer_at(g, ask, at)[i], answer_at(g, ask, at)[j]]
            0 <= i < j < answer_at(g, ask, at).len() ==> answer_at(g, ask, at)[i] != answer_at(
                g,
                ask,
                at,
            )[j],
{
    let nodes = g.nodes@;
    let p = picks(g, ask, at, g.edges@.len());
    let r = ranked(nodes, Order::Path, p);
    let d = answer_at(g, ask, at);
    an_answer_names_what_is_linked(g, ask, at, 0);
    ranking_orders_and_keeps(nodes, Order::Path, p);
    lemma_distinct(nodes, Order::Path, r);
    assert forall|i: int, j: int|
        0 <= i < j < d.len() implies precedes(
        Order::Path,
        nodes[#[trigger] d[i]],
        nodes[#[trigger] d[j]],
    ) && d[i] != d[j] by {
        let a = nodes[d[i]];
        let b = nodes[d[j]];
        let c = nodes[d[i + 1]];
        assert(!precedes(Order::Path, b, a));
        lemma_text_lt_total(a.path@, b.path@);
        if !precedes(Order::Path, a, b) {
            assert(a.path@ == b.path@ && a.id == b.id);
            if d[i] < d[j] {
                assert(nodes[d[i]].id != nodes[d[j]].id);
            } else if d[j] < d[i] {
                assert(nodes[d[j]].id != nodes[d[i]].id);
            }
            assert(d[i] == d[j]);
            assert(!precedes(Order::Path, c, a));
            if i + 1 < j {
                assert(!precedes(Order::Path, b, c));
            }
            lemma_text_lt_total(a.path@, c.path@);
            lemma_text_lt_irreflexive(a.path@);
            assert(c.id == a.id);
            assert(nodes[d[i]].id != nodes[d[i + 1]].id);
        }
        if d[i] == d[j] {
            lemma_text_lt_irreflexive(a.path@);
        }
    }
}

/// A note that links to itself is among its backlinks, and never among its forward links.
pub proof fn a_self_link_shows_from_one_end_only(g: WireGraph, at: u32, j: int)
    requires
        ids_are_unique(g.nodes@),
        0 <= j < g.edges@.len(),
        g.edges@[j].src == at,
        g.edges@[j].dst == Some(at),
        is_live(g, at),
    ensures
        names(g.nodes@, answer_at(g, Ask::Back, at), g.nodes@[at as int].id),
        !names(g.nodes@, answer_at(g, Ask::Forward, at), g.nodes@[at as int].id),
{
    let id = g.nodes@[at as int].id;
    an_answer_names_what_is_linked(g, Ask::Back, at, id);
    an_answer_names_what_is_linked(g, Ask::Forward, at, id);
    assert(pick(g, Ask::Back, at, g.edges@[j]) == Some(at as int));
    assert(is_linked(g, Ask::Back, at, at as int));
    if names(g.nodes@, answer_at(g, Ask::Forward, at), id) {
        let k = choose|k: int| #[trigger]
            is_linked(g, Ask::Forward, at, k) && g.nodes@[k].id == id;
        let e = choose|e: int|
            0 <= e < g.edges@.len() && pick(g, Ask::Forward, at, #[trigger] g.edges@[e]) == Some(k);
        assert(k != at);
        if k < at {
            assert(g.nodes@[k].id != g.nodes@[at as int].id);
        } else {
            assert(g.nodes@[at as int].id != g.nodes@[k].id);
        }
    }
}

/// Between two live notes a link shows at both ends or at neither.
pub proof fn links_read_alike_from_both_ends(g: WireGraph, a: u32, b: u32)
    requires
        ids_are_unique(g.nodes@),
        is_live(g, a),
        is_live(g, b),
        a != b,
    ensures
        names(g.nodes@, answer_at(g, Ask::Forward, a), g.nodes@[b as int].id) <==> names(
            g.nodes@,
            answer_at(g, Ask::Back, b),
            g.nodes@[a as int].id,
        ),
{
    let nodes = g.nodes@;
    an_answer_names_what_is_linked(g, Ask::Forward, a, nodes[b as int].id);
    an_answer_names_what_is_linked(g, Ask::Back, b, nodes[a as int].id);
    if names(nodes, answer_at(g, Ask::Forward, a), nodes[b as int].id) {
        let k = choose|k: int| #[trigger]
            is_linked(g, Ask::Forward, a, k) && nodes[k].id == nodes[b as int].id;
        let e = choose|e: int|
            0 <= e < g.edges@.len() && pick(g, Ask::Forward, a, #[trigger] g.edges@[e]) == Some(k);
        lemma_same_node(nodes, k, b as int);
        assert(pick(g, Ask::Back, b, g.edges@[e]) == Some(a as int));
        assert(is_linked(g, Ask::Back, b, a as int));
    }
    if names(nodes, answer_at(g, Ask::Back, b), nodes[a as int].id) {
        let k = choose|k: int| #[trigger]
            is_linked(g, Ask::Back, b, k) && nodes[k].id == nodes[a as int].id;
        let e = choose|e: int|
            0 <= e < g.edges@.len() && pick(g, Ask::Back, b, #[trigger] g.edges@[e]) == Some(k);
        lemma_same_node(nodes, k, a as int);
        assert(pick(g, Ask::Forward, a, g.edges@[e]) == Some(b as int));
        assert(is_linked(g, Ask::Forward, a, b as int));
    }
}

/// Between a live note and a live attachment an embed shows at both ends or at neither.
pub proof fn embeds_read_alike_from_both_ends(g: WireGraph, note: u32, file: u32)
    requires
        ids_are_unique(g.nodes@),
        is_live(g, note),
        is_live(g, file),
    ensures
        names(g.nodes@, answer_at(g, Ask::Embeds, note), g.nodes@[file as int].id) <==> names(
            g.nodes@,
            answer_at(g, Ask::Embedders, file),
            g.nodes@[note as int].id,
        ),
{
    let nodes = g.nodes@;
    an_answer_names_what_is_linked(g, Ask::Embeds, note, nodes[file as int].id);
    an_answer_names_what_is_linked(g, Ask::Embedders, file, nodes[note as int].id);
    if names(nodes, answer_at(g, Ask::Embeds, note), nodes[file as int].id) {
        let k = choose|k: int| #[trigger]
            is_linked(g, Ask::Embeds, note, k) && nodes[k].id == nodes[file as int].id;
        let e = choose|e: int|
            0 <= e < g.edges@.len() && pick(g, Ask::Embeds, note, #[trigger] g.edges@[e]) == Some(k);
        lemma_same_node(nodes, k, file as int);
        assert(pick(g, Ask::Embedders, file, g.edges@[e]) == Some(note as int));
        assert(is_linked(g, Ask::Embedders, file, note as int));
    }
    if names(nodes, answer_at(g, Ask::Embedders, file), nodes[note as int].id) {
        let k = choose|k: int| #[trigger]
            is_linked(g, Ask::Embedders, file, k) && nodes[k].id == nodes[note as int].id;
        let e = choose|e: int|
            0 <= e < g.edges@.len() && pick(g, Ask::Embedders, file, #[trigger] g.edges@[e])
                == Some(k);
        lemma_same_node(nodes, k, note as int);
        assert(pick(g, Ask::Embeds, note, g.edges@[e]) == Some(file as int));
        assert(is_linked(g, Ask::Embeds, note, file as int));
    }
}

proof fn lemma_same_node(nodes: Seq<GraphNode>, a: int, b: int)
    requires
        ids_are_unique(nodes),
        0 <= a < nodes.len(),
        0 <= b < nodes.len(),
        nodes[a].id == nodes[b].id,
    ensures
        a == b,
{
    if a < b {
        assert(nodes[a].id != nodes[b].id);
    } else if b < a {
        assert(nodes[b].id != nodes[a].id);
    }
}

/// Where ids are unique and every index fits, the index of a node's id is the node's.
pub proof fn an_id_finds_its_node(g: WireGraph, k: int)
    requires
        ids_are_unique(g.nodes@),
        0 <= k < g.nodes@.len() <= u32::MAX,
    ensures
        index_of(g, g.nodes@[k].id) == Some(k as u32),
{
    lemma_last_with(g.nodes@, k);
}

proof fn lemma_last_with(nodes: Seq<GraphNode>, k: int)
    requires
        ids_are_unique(nodes),
        0 <= k < nodes.len(),
    ensures
        last_with(nodes, nodes[k].id) == Some(k),
    decreases nodes.len(),
{
    let n = nodes.len() - 1;
    if k < n {
        assert(nodes[k].id != nodes[n].id);
        assert(ids_are_unique(nodes.drop_last()));
        lemma_last_with(nodes.drop_last(), k);
    }
}

/// No answer names a node in the trash.
pub proof fn an_answer_names_no_trash(g: WireGraph, ask: Ask, at: u32, i: int)
    requires
        0 <= i < answer_at(g, ask, at).len(),
    ensures
        !g.nodes@[answer_at(g, ask, at)[i]].trashed,
{
    let nodes = g.nodes@;
    let p = picks(g, ask, at, g.edges@.len());
    let r = ranked(nodes, Order::Path, p);
    let d = answer_at(g, ask, at);
    lemma_picks(g, ask, at, g.edges@.len());
    ranking_orders_and_keeps(nodes, Order::Path, p);
    lemma_distinct(nodes, Order::Path, r);
    assert(d.contains(d[i]));
    assert(r.contains(d[i]));
    assert(p.contains(d[i]));
}

/// What an answer about a note names, link by link: a link that `pick` takes contributes the node
/// at its other end, and every node of the answer is contributed by one.
proof fn lemma_answer_of(g: WireGraph, ask: Ask, k: int)
    requires
        ids_are_unique(g.nodes@),
        0 <= k < g.nodes@.len() <= u32::MAX,
        ask == Ask::Embeds ==> !g.nodes@[k].trashed,
    ensures
        answer(g, ask, g.nodes@[k].id) == answer_at(g, ask, k as u32),
        forall|j: int, n: int|
            #![trigger g.edges@[j], g.nodes@[n]]
            0 <= j < g.edges@.len() && pick(g, ask, k as u32, g.edges@[j]) == Some(n) ==> answer(
                g,
                ask,
                g.nodes@[k].id,
            ).contains(n),
        forall|n: int| #[trigger]
            answer(g, ask, g.nodes@[k].id).contains(n) ==> 0 <= n < g.nodes@.len() && exists|j: int|
                0 <= j < g.edges@.len() && pick(g, ask, k as u32, #[trigger] g.edges@[j]) == Some(
                    n,
                ),
{
    an_id_finds_its_node(g, k);
    let at = k as u32;
    let d = answer_at(g, ask, at);
    let p = picks(g, ask, at, g.edges@.len());
    let r = ranked(g.nodes@, Order::Path, p);
    lemma_picks(g, ask, at, g.edges@.len());
    ranking_orders_and_keeps(g.nodes@, Order::Path, p);
    lemma_distinct(g.nodes@, Order::Path, r);
    an_answer_names_what_is_linked(g, ask, at, 0);
    assert forall|j: int, n: int|
        #![trigger g.edges@[j], g.nodes@[n]]
        0 <= j < g.edges@.len() && pick(g, ask, at, g.edges@[j]) == Some(n) implies d.contains(
        n,
    ) by {
        let id = g.nodes@[n].id;
        an_answer_names_what_is_linked(g, ask, at, id);
        assert(is_linked(g, ask, at, n));
        assert(names(g.nodes@, d, id));
        let q = choose|q: int| 0 <= q < d.len() && g.nodes@[#[trigger] d[q]].id == id;
        lemma_same_node(g.nodes@, d[q], n);
    }
    assert forall|n: int| #[trigger] d.contains(n) implies 0 <= n < g.nodes@.len() && exists|j: int|
        0 <= j < g.edges@.len() && pick(g, ask, at, #[trigger] g.edges@[j]) == Some(n) by {
        assert(r.contains(n));
        assert(p.contains(n));
    }
}

/// The backlinks of a note are the live notes that some link to it stands in: every one of them,
/// whatever the link's kind, text or anchor, and no other. The note itself is among them where it
/// links to itself, and a note in the trash still has its backlinks.
pub proof fn backlinks_are_the_live_sources(g: WireGraph, k: int)
    requires
        ids_are_unique(g.nodes@),
        0 <= k < g.nodes@.len() <= u32::MAX,
    ensures
        forall|j: int|
            #![trigger g.edges@[j]]
            0 <= j < g.edges@.len() && g.edges@[j].dst == Some(k as u32) && g.edges@[j].src
                < g.nodes@.len() && !g.nodes@[g.edges@[j].src as int].trashed ==> notes_at(
                g.nodes@,
                answer(g, Ask::Back, g.nodes@[k].id),
            ).contains(
                (NoteVal {
                    id: g.nodes@[g.edges@[j].src as int].id,
                    name: g.nodes@[g.edges@[j].src as int].name@,
                    path: g.nodes@[g.edges@[j].src as int].path@,
                }),
            ),
        forall|v: NoteVal| #[trigger]
            notes_at(g.nodes@, answer(g, Ask::Back, g.nodes@[k].id)).contains(v) ==> exists|j: int|
                #![trigger g.edges@[j]]
                0 <= j < g.edges@.len() && g.edges@[j].dst == Some(k as u32) && g.edges@[j].src
                    < g.nodes@.len() && !g.nodes@[g.edges@[j].src as int].trashed && v
                    == (NoteVal {
                    id: g.nodes@[g.edges@[j].src as int].id,
                    name: g.nodes@[g.edges@[j].src as int].name@,
                    path: g.nodes@[g.edges@[j].src as int].path@,
                }),
{
    lemma_answer_of(g, Ask::Back, k);
    let d = answer(g, Ask::Back, g.nodes@[k].id);
    let all = notes_at(g.nodes@, d);
    assert forall|j: int|
        #![trigger g.edges@[j]]
        0 <= j < g.edges@.len() && g.edges@[j].dst == Some(k as u32) && g.edges@[j].src
            < g.nodes@.len() && !g.nodes@[g.edges@[j].src as int].trashed implies all.contains(
        (NoteVal {
            id: g.nodes@[g.edges@[j].src as int].id,
            name: g.nodes@[g.edges@[j].src as int].name@,
            path: g.nodes@[g.edges@[j].src as int].path@,
        }),
    ) by {
        let n = g.edges@[j].src as int;
        assert(pick(g, Ask::Back, k as u32, g.edges@[j]) == Some(n));
        assert(g.nodes@[n].id == g.nodes@[n].id);
        assert(d.contains(n));
        let q = choose|q: int| 0 <= q < d.len() && d[q] == n;
        assert(all[q] == note_of(g.nodes@[n]));
    }
    assert forall|v: NoteVal| #[trigger] all.contains(v) implies exists|j: int|
        #![trigger g.edges@[j]]
        0 <= j < g.edges@.len() && g.edges@[j].dst == Some(k as u32) && g.edges@[j].src
            < g.nodes@.len() && !g.nodes@[g.edges@[j].src as int].trashed && v == (NoteVal {
            id: g.nodes@[g.edges@[j].src as int].id,
            name: g.nodes@[g.edges@[j].src as int].name@,
            path: g.nodes@[g.edges@[j].src as int].path@,
        }) by {
        let q = choose|q: int| 0 <= q < all.len() && all[q] == v;
        assert(d.contains(d[q]));
        let j = choose|j: int|
            0 <= j < g.edges@.len() && pick(g, Ask::Back, k as u32, #[trigger] g.edges@[j])
                == Some(d[q]);
        assert(g.edges@[j].src as int == d[q]);
    }
}

/// The forward links of a note are the other live notes that some link in it leads to: every one
/// of them, whatever the link's kind, text or anchor, and no other. A note in the trash still has
/// its forward links.
pub proof fn forward_links_are_the_live_targets(g: WireGraph, k: int)
    requires
        ids_are_unique(g.nodes@),
        0 <= k < g.nodes@.len() <= u32::MAX,
    ensures
        forall|j: int|
            #![trigger g.edges@[j]]
            0 <= j < g.edges@.len() && g.edges@[j].src == k && g.edges@[j].dst is Some
                && g.edges@[j].dst->0 != k && g.edges@[j].dst->0 < g.nodes@.len()
                && !g.nodes@[g.edges@[j].dst->0 as int].trashed ==> notes_at(
                g.nodes@,
                answer(g, Ask::Forward, g.nodes@[k].id),
            ).contains(
                (NoteVal {
                    id: g.nodes@[g.edges@[j].dst->0 as int].id,
                    name: g.nodes@[g.edges@[j].dst->0 as int].name@,
                    path: g.nodes@[g.edges@[j].dst->0 as int].path@,
                }),
            ),
        forall|v: NoteVal| #[trigger]
            notes_at(g.nodes@, answer(g, Ask::Forward, g.nodes@[k].id)).contains(v)
                ==> exists|j: int|
                #![trigger g.edges@[j]]
                0 <= j < g.edges@.len() && g.edges@[j].src == k && g.edges@[j].dst is Some
                    && g.edges@[j].dst->0 != k && g.edges@[j].dst->0 < g.nodes@.len()
                    && !g.nodes@[g.edges@[j].dst->0 as int].trashed && v == (NoteVal {
                    id: g.nodes@[g.edges@[j].dst->0 as int].id,
                    name: g.nodes@[g.edges@[j].dst->0 as int].name@,
                    path: g.nodes@[g.edges@[j].dst->0 as int].path@,
                }),
{
    lemma_answer_of(g, Ask::Forward, k);
    let d = answer(g, Ask::Forward, g.nodes@[k].id);
    let all = notes_at(g.nodes@, d);
    assert forall|j: int|
        #![trigger g.edges@[j]]
        0 <= j < g.edges@.len() && g.edges@[j].src == k && g.edges@[j].dst is Some
            && g.edges@[j].dst->0 != k && g.edges@[j].dst->0 < g.nodes@.len()
            && !g.nodes@[g.edges@[j].dst->0 as int].trashed implies all.contains(
        (NoteVal {
            id: g.nodes@[g.edges@[j].dst->0 as int].id,
            name: g.nodes@[g.edges@[j].dst->0 as int].name@,
            path: g.nodes@[g.edges@[j].dst->0 as int].path@,
        }),
    ) by {
        let n = g.edges@[j].dst->0 as int;
        assert(pick(g, Ask::Forward, k as u32, g.edges@[j]) == Some(n));
        assert(g.nodes@[n].id == g.nodes@[n].id);
        assert(d.contains(n));
        let q = choose|q: int| 0 <= q < d.len() && d[q] == n;
        assert(all[q] == note_of(g.nodes@[n]));
    }
    assert forall|v: NoteVal| #[trigger] all.contains(v) implies exists|j: int|
        #![trigger g.edges@[j]]
        0 <= j < g.edges@.len() && g.edges@[j].src == k && g.edges@[j].dst is Some
            && g.edges@[j].dst->0 != k && g.edges@[j].dst->0 < g.nodes@.len()
            && !g.nodes@[g.edges@[j].dst->0 as int].trashed && v == (NoteVal {
            id: g.nodes@[g.edges@[j].dst->0 as int].id,
            name: g.nodes@[g.edges@[j].dst->0 as int].name@,
            path: g.nodes@[g.edges@[j].dst->0 as int].path@,
        }) by {
        let q = choose|q: int| 0 <= q < all.len() && all[q] == v;
        assert(d.contains(d[q]));
        let j = choose|j: int|
            0 <= j < g.edges@.len() && pick(g, Ask::Forward, k as u32, #[trigger] g.edges@[j])
                == Some(d[q]);
        assert(g.edges@[j].dst->0 as int == d[q]);
    }
}

/// The embeds of a live note are the live attachments that some link in it leads to: every one of
/// them, with its type and size, and no other. A note in the trash has none.
pub proof fn embeds_are_the_live_attachments(g: WireGraph, k: int)
    requires
        ids_are_unique(g.nodes@),
        0 <= k < g.nodes@.len() <= u32::MAX,
    ensures
        g.nodes@[k].trashed ==> files_at(
            g.nodes@,
            answer(g, Ask::Embeds, g.nodes@[k].id),
        ).len() == 0,
        forall|j: int|
            #![trigger g.edges@[j]]
            !g.nodes@[k].trashed && 0 <= j < g.edges@.len() && g.edges@[j].src == k
                && g.edges@[j].att is Some && g.edges@[j].att->0 < g.nodes@.len()
                && !g.nodes@[g.edges@[j].att->0 as int].trashed ==> files_at(
                g.nodes@,
                answer(g, Ask::Embeds, g.nodes@[k].id),
            ).contains(
                (FileVal {
                    id: g.nodes@[g.edges@[j].att->0 as int].id,
                    name: g.nodes@[g.edges@[j].att->0 as int].name@,
                    path: g.nodes@[g.edges@[j].att->0 as int].path@,
                    mime: opt_str(g.nodes@[g.edges@[j].att->0 as int].mime),
                    size: g.nodes@[g.edges@[j].att->0 as int].content_bytes,
                }),
            ),
        forall|v: FileVal| #[trigger]
            files_at(g.nodes@, answer(g, Ask::Embeds, g.nodes@[k].id)).contains(v)
                ==> exists|j: int|
                #![trigger g.edges@[j]]
                0 <= j < g.edges@.len() && g.edges@[j].src == k && g.edges@[j].att is Some
                    && g.edges@[j].att->0 < g.nodes@.len()
                    && !g.nodes@[g.edges@[j].att->0 as int].trashed && v == (FileVal {
                    id: g.nodes@[g.edges@[j].att->0 as int].id,
                    name: g.nodes@[g.edges@[j].att->0 as int].name@,
                    path: g.nodes@[g.edges@[j].att->0 as int].path@,
                    mime: opt_str(g.nodes@[g.edges@[j].att->0 as int].mime),
                    size: g.nodes@[g.edges@[j].att->0 as int].content_bytes,
                }),
{
    if g.nodes@[k].trashed {
        an_id_finds_its_node(g, k);
        assert(files_at(g.nodes@, answer(g, Ask::Embeds, g.nodes@[k].id)) =~= Seq::empty());
    } else {
        lemma_answer_of(g, Ask::Embeds, k);
        let d = answer(g, Ask::Embeds, g.nodes@[k].id);
        let all = files_at(g.nodes@, d);
        assert forall|j: int|
            #![trigger g.edges@[j]]
            0 <= j < g.edges@.len() && g.edges@[j].src == k && g.edges@[j].att is Some
                && g.edges@[j].att->0 < g.nodes@.len()
                && !g.nodes@[g.edges@[j].att->0 as int].trashed implies all.contains(
            (FileVal {
                id: g.nodes@[g.edges@[j].att->0 as int].id,
                name: g.nodes@[g.edges@[j].att->0 as int].name@,
                path: g.nodes@[g.edges@[j].att->0 as int].path@,
                mime: opt_str(g.nodes@[g.edges@[j].att->0 as int].mime),
                size: g.nodes@[g.edges@[j].att->0 as int].content_bytes,
            }),
        ) by {
            let n = g.edges@[j].att->0 as int;
            assert(pick(g, Ask::Embeds, k as u32, g.edges@[j]) == Some(n));
            assert(g.nodes@[n].id == g.nodes@[n].id);
            assert(d.contains(n));
            let q = choose|q: int| 0 <= q < d.len() && d[q] == n;
            assert(all[q] == file_of(g.nodes@[n]));
        }
        assert forall|v: FileVal| #[trigger] all.contains(v) implies exists|j: int|
            #![trigger g.edges@[j]]
            0 <= j < g.edges@.len() && g.edges@[j].src == k && g.edges@[j].att is Some
                && g.edges@[j].att->0 < g.nodes@.len()
                && !g.nodes@[g.edges@[j].att->0 as int].trashed && v == (FileVal {
                id: g.nodes@[g.edges@[j].att->0 as int].id,
                name: g.nodes@[g.edges@[j].att->0 as int].name@,
                path: g.nodes@[g.edges@[j].att->0 as int].path@,
                mime: opt_str(g.nodes@[g.edges@[j].att->0 as int].mime),
                size: g.nodes@[g.edges@[j].att->0 as int].content_bytes,
            }) by {
            let q = choose|q: int| 0 <= q < all.len() && all[q] == v;
            assert(d.contains(d[q]));
            let j = choose|j: int|
                0 <= j < g.edges@.len() && pick(g, Ask::Embeds, k as u32, #[trigger] g.edges@[j])
                    == Some(d[q]);
            assert(g.edges@[j].att->0 as int == d[q]);
        }
    }
}

/// The embedders of an attachment are the live notes that some link to it stands in: every one of
/// them, and no other, whether or not the attachment is in the trash.
pub proof fn embedders_are_the_live_sources(g: WireGraph, k: int)
    requires
        ids_are_unique(g.nodes@),
        0 <= k < g.nodes@.len() <= u32::MAX,
    ensures
        forall|j: int|
            #![trigger g.edges@[j]]
            0 <= j < g.edges@.len() && g.edges@[j].att == Some(k as u32) && g.edges@[j].src
                < g.nodes@.len() && !g.nodes@[g.edges@[j].src as int].trashed ==> notes_at(
                g.nodes@,
                answer(g, Ask::Embedders, g.nodes@[k].id),
            ).contains(
                (NoteVal {
                    id: g.nodes@[g.edges@[j].src as int].id,
                    name: g.nodes@[g.edges@[j].src as int].name@,
                    path: g.nodes@[g.edges@[j].src as int].path@,
                }),
            ),
        forall|v: NoteVal| #[trigger]
            notes_at(g.nodes@, answer(g, Ask::Embedders, g.nodes@[k].id)).contains(v)
                ==> exists|j: int|
                #![trigger g.edges@[j]]
                0 <= j < g.edges@.len() && g.edges@[j].att == Some(k as u32) && g.edges@[j].src
                    < g.nodes@.len() && !g.nodes@[g.edges@[j].src as int].trashed && v
                    == (NoteVal {
                    id: g.nodes@[g.edges@[j].src as int].id,
                    name: g.nodes@[g.edges@[j].src as int].name@,
                    path: g.nodes@[g.edges@[j].src as int].path@,
                }),
{
    lemma_answer_of(g, Ask::Embedders, k);
    let d = answer(g, Ask::Embedders, g.nodes@[k].id);
    let all = notes_at(g.nodes@, d);
    assert forall|j: int|
        #![trigger g.edges@[j]]
        0 <= j < g.edges@.len() && g.edges@[j].att == Some(k as u32) && g.edges@[j].src
            < g.nodes@.len() && !g.nodes@[g.edges@[j].src as int].trashed implies all.contains(
        (NoteVal {
            id: g.nodes@[g.edges@[j].src as int].id,
            name: g.nodes@[g.edges@[j].src as int].name@,
            path: g.nodes@[g.edges@[j].src as int].path@,
        }),
    ) by {
        let n = g.edges@[j].src as int;
        assert(pick(g, Ask::Embedders, k as u32, g.edges@[j]) == Some(n));
        assert(g.nodes@[n].id == g.nodes@[n].id);
        assert(d.contains(n));
        let q = choose|q: int| 0 <= q < d.len() && d[q] == n;
        assert(all[q] == note_of(g.nodes@[n]));
    }
    assert forall|v: NoteVal| #[trigger] all.contains(v) implies exists|j: int|
        #![trigger g.edges@[j]]
        0 <= j < g.edges@.len() && g.edges@[j].att == Some(k as u32) && g.edges@[j].src
            < g.nodes@.len() && !g.nodes@[g.edges@[j].src as int].trashed && v == (NoteVal {
            id: g.nodes@[g.edges@[j].src as int].id,
            name: g.nodes@[g.edges@[j].src as int].name@,
            path: g.nodes@[g.edges@[j].src as int].path@,
        }) by {
        let q = choose|q: int| 0 <= q < all.len() && all[q] == v;
        assert(d.contains(d[q]));
        let j = choose|j: int|
            0 <= j < g.edges@.len() && pick(g, Ask::Embedders, k as u32, #[trigger] g.edges@[j])
                == Some(d[q]);
        assert(g.edges@[j].src as int == d[q]);
    }
}

/// An id that no node has is linked with nothing.
pub proof fn an_unknown_id_is_answered_with_nothing(g: WireGraph, ask: Ask, id: u128)
    requires
        forall|k: int| 0 <= k < g.nodes@.len() ==> (#[trigger] g.nodes@[k]).id != id,
    ensures
        notes_at(g.nodes@, answer(g, ask, id)).len() == 0,
        files_at(g.nodes@, answer(g, ask, id)).len() == 0,
{
    lemma_last_without(g.nodes@, id);
}

proof fn lemma_last_without(nodes: Seq<GraphNode>, id: u128)
    requires
        forall|k: int| 0 <= k < nodes.len() ==> (#[trigger] nodes[k]).id != id,
    ensures
        last_with(nodes, id) is None,
    decreases nodes.len(),
{
    if nodes.len() > 0 {
        assert(nodes[nodes.len() - 1].id != id);
        assert forall|k: int| 0 <= k < nodes.drop_last().len() implies (
        #[trigger] nodes.drop_last()[k]).id != id by {
            assert(nodes[k].id != id);
        }
        lemma_last_without(nodes.drop_last(), id);
    }
}

/// The list of a note's unresolved targets holds the target of every link or markdown link in the
/// note that leads to no note, as it is written, and nothing else, each once and in order.
pub proof fn unresolved_targets_are_the_dangling_links(g: WireGraph, k: int, s: Seq<Seq<char>>)
    requires
        ids_are_unique(g.nodes@),
        0 <= k < g.nodes@.len() <= u32::MAX,
        is_list_of(s, |t: Seq<char>| is_unresolved(g, g.nodes@[k].id, t)),
    ensures
        forall|j: int|
            #![trigger g.edges@[j]]
            0 <= j < g.edges@.len() && g.edges@[j].src == k && g.edges@[j].dst is None
                && g.edges@[j].dst_ref@.len() > 0 && (g.edges@[j].kind@ == "wikilink"@
                || g.edges@[j].kind@ == "markdown"@) ==> s.contains(g.edges@[j].dst_ref@),
        forall|t: Seq<char>| #[trigger]
            s.contains(t) ==> exists|j: int|
                #![trigger g.edges@[j]]
                0 <= j < g.edges@.len() && g.edges@[j].src == k && g.edges@[j].dst is None
                    && g.edges@[j].dst_ref@.len() > 0 && (g.edges@[j].kind@ == "wikilink"@
                    || g.edges@[j].kind@ == "markdown"@) && g.edges@[j].dst_ref@ == t,
        forall|a: int, b: int| 0 <= a < b < s.len() ==> text_lt(#[trigger] s[a], #[trigger] s[b]),
{
    an_id_finds_its_node(g, k);
    let id = g.nodes@[k].id;
    let p = |t: Seq<char>| is_unresolved(g, id, t);
    assert forall|j: int|
        #![trigger g.edges@[j]]
        0 <= j < g.edges@.len() && g.edges@[j].src == k && g.edges@[j].dst is None
            && g.edges@[j].dst_ref@.len() > 0 && (g.edges@[j].kind@ == "wikilink"@
            || g.edges@[j].kind@ == "markdown"@) implies s.contains(g.edges@[j].dst_ref@) by {
        assert(dangles(g.edges@[j], k as u32));
        assert(p(g.edges@[j].dst_ref@));
    }
    assert forall|t: Seq<char>| #[trigger] s.contains(t) implies exists|j: int|
        #![trigger g.edges@[j]]
        0 <= j < g.edges@.len() && g.edges@[j].src == k && g.edges@[j].dst is None
            && g.edges@[j].dst_ref@.len() > 0 && (g.edges@[j].kind@ == "wikilink"@
            || g.edges@[j].kind@ == "markdown"@) && g.edges@[j].dst_ref@ == t by {
        assert(p(t));
        assert(is_unresolved(g, id, t));
    }
}

/// The list of a live note's tags holds every tag that the graph gives the note, and nothing else,
/// each once and in order. A note in the trash has none.
pub proof fn tags_are_those_of_the_note(g: WireGraph, k: int, s: Seq<Seq<char>>)
    requires
        ids_are_unique(g.nodes@),
        0 <= k < g.nodes@.len() <= u32::MAX,
        is_list_of(s, |t: Seq<char>| is_tagged(g, g.nodes@[k].id, t)),
    ensures
        g.nodes@[k].trashed ==> s.len() == 0,
        forall|j: int|
            #![trigger g.tags@[j]]
            !g.nodes@[k].trashed && 0 <= j < g.tags@.len() && g.tags@[j].node == k ==> s.contains(
                g.tags@[j].tag@,
            ),
        forall|t: Seq<char>| #[trigger]
            s.contains(t) ==> exists|j: int|
                #![trigger g.tags@[j]]
                0 <= j < g.tags@.len() && g.tags@[j].node == k && g.tags@[j].tag@ == t,
        forall|a: int, b: int| 0 <= a < b < s.len() ==> text_lt(#[trigger] s[a], #[trigger] s[b]),
{
    an_id_finds_its_node(g, k);
    let id = g.nodes@[k].id;
    let p = |t: Seq<char>| is_tagged(g, id, t);
    if s.len() > 0 {
        assert(s.contains(s[0]));
        assert(p(s[0]));
        assert(is_tagged(g, id, s[0]));
    }
    assert forall|j: int|
        #![trigger g.tags@[j]]
        !g.nodes@[k].trashed && 0 <= j < g.tags@.len() && g.tags@[j].node
            == k implies s.contains(g.tags@[j].tag@) by {
        assert(p(g.tags@[j].tag@));
    }
    assert forall|t: Seq<char>| #[trigger] s.contains(t) implies exists|j: int|
        #![trigger g.tags@[j]]
        0 <= j < g.tags@.len() && g.tags@[j].node == k && g.tags@[j].tag@ == t by {
        assert(p(t));
        assert(is_tagged(g, id, t));
    }
}

/// Where ids are unique, of two nodes in an answer the one with the smaller path stands first, and of
/// two with the same path the one with the smaller id.
pub proof fn an_answer_goes_by_path_and_id(g: WireGraph, ask: Ask, at: u32, i: int, j: int)
    requires
        ids_are_unique(g.nodes@),
        0 <= i < j < answer_at(g, ask, at).len(),
    ensures
        ({
            let a = g.nodes@[answer_at(g, ask, at)[i]];
            let b = g.nodes@[answer_at(g, ask, at)[j]];
            text_lt(a.path@, b.path@) || (a.path@ == b.path@ && a.id < b.id)
        }),
{
    an_answer_is_in_order_and_without_repeats(g, ask, at);
}

/// Paths are ordered by their first different component, and what stands in a folder comes behind
/// the folder.
pub proof fn the_first_different_component_orders_paths(
    common: Seq<Seq<char>>,
    a: Seq<Seq<char>>,
    b: Seq<Seq<char>>,
)
    ensures
        a.len() > 0 && b.len() > 0 && a[0] != b[0] ==> (parts_lt(common + a, common + b)
            <==> text_lt(a[0], b[0])),
        a.len() == 0 && b.len() > 0 ==> parts_lt(common + a, common + b) && !parts_lt(
            common + b,
            common + a,
        ),
    decreases common.len(),
{
    if common.len() == 0 {
        assert(common + a =~= a);
        assert(common + b =~= b);
    } else {
        let rest = common.drop_first();
        the_first_different_component_orders_paths(rest, a, b);
        assert((common + a)[0] == (common + b)[0]);
        assert((common + a).drop_first() =~= rest + a);
        assert((common + b).drop_first() =~= rest + b);
    }
}

} // verus!
