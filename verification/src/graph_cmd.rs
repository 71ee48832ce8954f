//! `docli ls`, `docli tree`, `docli tags` and `docli tagged`, answered from the held graph.
//!
//! The graph is that of the whole workspace, also where a mount holds one folder of it: a row
//! that the mirror does not hold is marked, and the way to it is named.

use vstd::prelude::*;

use crate::config::holds;
use crate::config::shown_name;
use crate::config::Mount;
use crate::graph::in_order;
use crate::graph::increasing;
use crate::graph::ints;
use crate::graph::is_list_of;
use crate::graph::is_tagged;
use crate::graph::parts_lt;
use crate::graph::rank;
use crate::graph::ranked;
use crate::graph::ranking_orders_and_keeps;
use crate::graph::within;
use crate::graph::Graph;
use crate::graph::GraphNode;
use crate::graph::Order;
use crate::graph::WireGraph;
use crate::report::counted;
use crate::report::notices;
use crate::report::plural;
use crate::report::spans;
use crate::report::Notice;
use crate::report::NoticeVal;
use crate::report::Span;
use crate::report::SpanVal;
use crate::state::WsState;
use crate::text::cat2;
use crate::text::cat3;
use crate::text::chars_of;
use crate::text::has_str;
use crate::text::join;
use crate::text::join_of;
use crate::text::lemma_text_lt_irreflexive;
use crate::text::lemma_text_lt_total;
use crate::text::lemma_text_lt_transitive;
use crate::text::opt_str;
use crate::text::pad_end;
use crate::text::padded;
use crate::text::same;
use crate::text::split_of;
use crate::text::string_between;
use crate::text::strs;
use crate::text::text_less;
use crate::text::text_lt;
use crate::text::trim_end_char;
use crate::text::trim_end_char_of;
use crate::text::trim_start_char;
use crate::text::trim_start_char_of;

verus! {

broadcast use vstd::std_specs::btree::group_btree_axioms;

/// What is asked of the graph.
#[derive(Debug)]
pub enum Verb {
    /// The children of a folder, or of the root.
    Ls { folder: Option<String> },
    Tree,
    Tags,
    Tagged { tag: String },
}

/// A node of an answer.
#[derive(Debug)]
pub struct Row {
    pub id: u128,
    pub kind: String,
    pub name: String,
    pub path: String,
    /// Its tags, where tags were asked about.
    pub tags: Vec<String>,
    /// The mirror holds it.
    pub mirrored: bool,
}

/// A tag and how many live notes have it.
#[derive(Debug)]
pub struct TagRow {
    pub tag: String,
    pub notes: usize,
}

/// What has to be said beside an answer.
#[derive(Debug)]
pub struct Disclosure {
    pub message: String,
}

/// The answer about one mount.
#[derive(Debug)]
pub struct MountAnswer {
    pub mount: String,
    pub workspace: u128,
    pub rows: Option<Vec<Row>>,
    pub tags: Option<Vec<TagRow>>,
    /// Why there is no answer.
    pub absent: Option<String>,
    pub disclosures: Vec<Disclosure>,
}

/// What stands before the last slash of a path; nothing where there is none.
pub open spec fn parent_path(path: Seq<char>) -> Seq<char>
    decreases path.len(),
{
    if path.len() == 0 {
        path
    } else if path.last() == '/' {
        path.drop_last()
    } else {
        parent_path(path.drop_last())
    }
}

/// The parent of a path.
pub fn parent_of(path: &str) -> (r: String)
    ensures
        r@ == parent_path(path@),
{
    let v = chars_of(path);
    let mut n: usize = v.len();
    assert(v@.take(n as int) =~= v@);
    while n > 0
        invariant
            v@ == path@,
            n <= v@.len(),
            parent_path(path@) == parent_path(v@.take(n as int)),
        decreases n,
    {
        assert(v@.take(n as int).drop_last() =~= v@.take(n - 1));
        assert(v@.take(n as int).last() == v@[n - 1]);
        if v[n - 1] == '/' {
            let r = string_between(&v, 0, n - 1);
            assert(r@ =~= v@.take(n - 1));
            return r;
        }
        n = n - 1;
    }
    let r = String::new();
    assert(r@ =~= v@.take(0));
    r
}

/// A folder without the slashes around it; the root where none is given.
pub open spec fn wanted_of(folder: Option<Seq<char>>) -> Seq<char> {
    match folder {
        Some(f) => trim_end_char_of(trim_start_char_of(f, '/'), '/'),
        None => Seq::empty(),
    }
}

/// A folder without the slashes around it; the root where none is given.
pub fn wanted_folder(folder: &Option<String>) -> (r: String)
    ensures
        r@ == wanted_of(opt_str(*folder)),
{
    match folder {
        Some(f) => {
            let head = trim_start_char(f.as_str(), '/');
            trim_end_char(head.as_str(), '/')
        },
        None => {
            let r = String::new();
            assert(r@ =~= Seq::empty());
            r
        },
    }
}

/// The verb asks for this node.
pub open spec fn chosen(g: WireGraph, verb: Verb, n: GraphNode) -> bool {
    match verb {
        Verb::Ls { folder } => parent_path(n.path@) == wanted_of(opt_str(folder)),
        Verb::Tree => true,
        Verb::Tags => false,
        Verb::Tagged { tag } => is_tagged(g, n.id, tag@),
    }
}

/// The live nodes among the first `n` that the verb asks for.
pub open spec fn selected(g: WireGraph, verb: Verb, n: nat) -> Seq<int>
    decreases n,
{
    if n == 0 {
        Seq::empty()
    } else {
        let before = selected(g, verb, (n - 1) as nat);
        let node = g.nodes@[n - 1];
        if !node.trashed && chosen(g, verb, node) {
            before.push(n - 1)
        } else {
            before
        }
    }
}

/// The nodes of an answer, in the order of their paths' components.
pub open spec fn listed(g: WireGraph, verb: Verb) -> Seq<int> {
    ranked(g.nodes@, Order::Parts, selected(g, verb, g.nodes@.len()))
}

/// The row shows the node.
pub open spec fn shows(g: WireGraph, verb: Verb, n: GraphNode, row: Row) -> bool {
    &&& row.id == n.id
    &&& row.kind@ == n.kind@
    &&& row.name@ == n.name@
    &&& row.path@ == n.path@
    &&& if verb is Tagged {
        is_list_of(strs(row.tags@), |t: Seq<char>| is_tagged(g, n.id, t))
    } else {
        row.tags@.len() == 0
    }
}

/// The row shows the node at `k`.
pub open spec fn shows_at(g: WireGraph, verb: Verb, k: int, row: Row) -> bool {
    0 <= k && k < g.nodes@.len() && shows(g, verb, g.nodes@[k], row)
}

fn asks_for(graph: &Graph, verb: &Verb, n: &GraphNode) -> (r: bool)
    ensures
        r == chosen(graph.wire(), *verb, *n),
{
    match verb {
        Verb::Ls { folder } => {
            let parent = parent_of(n.path.as_str());
            let wanted = wanted_folder(folder);
            same(parent.as_str(), wanted.as_str())
        },
        Verb::Tree => true,
        Verb::Tags => false,
        Verb::Tagged { tag } => {
            let tags = graph.tags(n.id);
            assert(strs(tags@).contains(tag@) <==> is_tagged(graph.wire(), n.id, tag@));
            has_str(&tags, tag.as_str())
        },
    }
}

/// The live rows that a verb asks for, in the order of the components of their paths: what lies
/// in a folder follows it at once, whatever else begins with the folder's name.
pub fn rows(graph: &Graph, verb: &Verb, mirrored: impl Fn(u128) -> bool) -> (r: Vec<Row>)
    requires
        forall|id: u128| call_requires(mirrored, (id,)),
    ensures
        r@.len() == listed(graph.wire(), *verb).len(),
        forall|i: int|
            #![trigger r@[i]]
            0 <= i < r@.len() ==> {
                &&& shows_at(graph.wire(), *verb, listed(graph.wire(), *verb)[i], r@[i])
                &&& call_ensures(mirrored, (r@[i].id,), r@[i].mirrored)
            },
{
    let ghost g = graph.wire();
    let held = graph.held();
    let mut picked: Vec<usize> = Vec::new();
    assert(ints(picked@) =~= selected(g, *verb, 0));
    for i in 0..held.nodes.len()
        invariant
            g == graph.wire(),
            *held == g,
            ints(picked@) == selected(g, *verb, i as nat),
            within(ints(picked@), g.nodes@.len()),
    {
        let n = &held.nodes[i];
        let ghost before = ints(picked@);
        if !n.trashed && asks_for(graph, verb, n) {
            picked.push(i);
            assert(ints(picked@) =~= before.push(i as int));
        }
    }
    let order = rank(&held.nodes, Order::Parts, &picked);
    let ghost want = listed(g, *verb);
    assert(ints(order@) == want);
    let mut out: Vec<Row> = Vec::new();
    for i in 0..order.len()
        invariant
            g == graph.wire(),
            *held == g,
            want == ints(order@),
            within(want, g.nodes@.len()),
            forall|id: u128| call_requires(mirrored, (id,)),
            out@.len() == i,
            forall|k: int|
                #![trigger out@[k]]
                0 <= k < out@.len() ==> {
                    &&& shows_at(g, *verb, want[k], out@[k])
                    &&& call_ensures(mirrored, (out@[k].id,), out@[k].mirrored)
                },
    {
        let k: usize = order[i];
        assert(want[i as int] == k);
        let n = &held.nodes[k];
        let tags = match verb {
            Verb::Tagged { .. } => graph.tags(n.id),
            _ => Vec::new(),
        };
        let here: bool = mirrored(n.id);
        out.push(
            Row {
                id: n.id,
                kind: n.kind.clone(),
                name: n.name.clone(),
                path: n.path.clone(),
                tags,
                mirrored: here,
            },
        );
    }
    out
}

/// How many of the first `n` nodes are live and have the tag.
pub open spec fn uses(g: WireGraph, t: Seq<char>, n: nat) -> nat
    decreases n,
{
    if n == 0 {
        0
    } else {
        uses(g, t, (n - 1) as nat) + if !g.nodes@[n - 1].trashed && is_tagged(
            g,
            g.nodes@[n - 1].id,
            t,
        ) {
            1nat
        } else {
            0nat
        }
    }
}

pub open spec fn pairs(v: Seq<TagRow>) -> Seq<(Seq<char>, usize)> {
    Seq::new(v.len(), |i: int| (v[i].tag@, v[i].notes))
}

/// The more used tag comes first, and of two that are used alike the smaller.
pub open spec fn ahead(a: (Seq<char>, usize), b: (Seq<char>, usize)) -> bool {
    a.1 > b.1 || (a.1 == b.1 && text_lt(a.0, b.0))
}

pub open spec fn in_rank(v: Seq<(Seq<char>, usize)>) -> bool {
    forall|i: int, j: int| 0 <= i < j < v.len() ==> ahead(#[trigger] v[i], #[trigger] v[j])
}

/// The tags of all live notes with how many have each, the most used first.
pub open spec fn is_tag_table(g: WireGraph, v: Seq<(Seq<char>, usize)>) -> bool {
    &&& in_rank(v)
    &&& forall|t: Seq<char>, n: usize| #[trigger]
        v.contains((t, n)) <==> n > 0 && n == uses(g, t, g.nodes@.len())
}

/// Each tag that `f` counts stands in the table once, with its count.
spec fn tallies(v: Seq<(Seq<char>, usize)>, f: spec_fn(Seq<char>) -> nat) -> bool {
    &&& forall|i: int, j: int| 0 <= i < j < v.len() ==> (#[trigger] v[i]).0 != (#[trigger] v[j]).0
    &&& forall|i: int| 0 <= i < v.len() ==> (#[trigger] v[i]).1 == f(v[i].0) && v[i].1 > 0
    &&& forall|t: Seq<char>| #[trigger]
        f(t) > 0 ==> exists|i: int| 0 <= i < v.len() && (#[trigger] v[i]).0 == t
}

spec fn bumped(f: spec_fn(Seq<char>) -> nat, t: Seq<char>) -> spec_fn(Seq<char>) -> nat {
    |x: Seq<char>|
        f(x) + if x == t {
            1nat
        } else {
            0nat
        }
}

proof fn lemma_same_tally(
    v: Seq<(Seq<char>, usize)>,
    f: spec_fn(Seq<char>) -> nat,
    h: spec_fn(Seq<char>) -> nat,
)
    requires
        tallies(v, f),
        forall|t: Seq<char>| #[trigger] f(t) == h(t),
    ensures
        tallies(v, h),
{
    assert forall|i: int| 0 <= i < v.len() implies (#[trigger] v[i]).1 == h(v[i].0) by {
        assert(f(v[i].0) == h(v[i].0));
    }
    assert forall|t: Seq<char>| #[trigger] h(t) > 0 implies exists|i: int|
        0 <= i < v.len() && (#[trigger] v[i]).0 == t by {
        assert(f(t) == h(t));
    }
}

fn bump(counts: &mut Vec<TagRow>, t: &str, Ghost(f): Ghost<spec_fn(Seq<char>) -> nat>)
    requires
        tallies(pairs(old(counts)@), f),
        f(t@) < usize::MAX,
    ensures
        tallies(pairs(final(counts)@), bumped(f, t@)),
{
    let ghost v = pairs(counts@);
    let total: usize = counts.len();
    for i in 0..total
        invariant
            total == counts@.len(),
            v == pairs(counts@),
            tallies(v, f),
            f(t@) < usize::MAX,
            counts@ == old(counts)@,
            forall|k: int| 0 <= k < i ==> (#[trigger] v[k]).0 != t@,
    {
        assert(v[i as int] == (counts@[i as int].tag@, counts@[i as int].notes));
        if same(counts[i].tag.as_str(), t) {
            let n: usize = counts[i].notes;
            assert(n == f(t@));
            let tag = counts[i].tag.clone();
            counts.set(i, TagRow { tag, notes: n + 1 });
            proof {
                let w = pairs(counts@);
                assert(w =~= v.update(i as int, (t@, (n + 1) as usize)));
                let h = bumped(f, t@);
                assert forall|a: int| 0 <= a < w.len() implies (#[trigger] w[a]).1 == h(w[a].0)
                    && w[a].1 > 0 by {
                    assert(v[a].1 == f(v[a].0));
                    if a != i {
                        assert(v[a].0 != v[i as int].0) by {
                            if a < i {
                                assert(v[a].0 != v[i as int].0);
                            } else {
                                assert(v[i as int].0 != v[a].0);
                            }
                        }
                    }
                }
                assert forall|x: Seq<char>| #[trigger] h(x) > 0 implies exists|a: int|
                    0 <= a < w.len() && (#[trigger] w[a]).0 == x by {
                    if x == t@ {
                        assert(w[i as int].0 == x);
                    } else {
                        assert(f(x) > 0);
                        let a = choose|a: int| 0 <= a < v.len() && (#[trigger] v[a]).0 == x;
                        assert(w[a].0 == x);
                    }
                }
                assert forall|a: int, b: int| 0 <= a < b < w.len() implies (#[trigger] w[a]).0 != (
                #[trigger] w[b]).0 by {
                    assert(v[a].0 != v[b].0);
                }
            }
            return;
        }
    }
    proof {
        if f(t@) > 0 {
            let a = choose|a: int| 0 <= a < v.len() && (#[trigger] v[a]).0 == t@;
            assert(v[a].0 != t@);
        }
    }
    counts.push(TagRow { tag: t.to_owned(), notes: 1 });
    proof {
        let w = pairs(counts@);
        assert(w =~= v.push((t@, 1usize)));
        let h = bumped(f, t@);
        assert forall|a: int| 0 <= a < w.len() implies (#[trigger] w[a]).1 == h(w[a].0) && w[a].1
            > 0 by {
            if a < v.len() {
                assert(v[a].1 == f(v[a].0));
                assert(v[a].0 != t@);
            }
        }
        assert forall|x: Seq<char>| #[trigger] h(x) > 0 implies exists|a: int|
            0 <= a < w.len() && (#[trigger] w[a]).0 == x by {
            if x == t@ {
                assert(w[v.len() as int].0 == x);
            } else {
                assert(f(x) > 0);
                let a = choose|a: int| 0 <= a < v.len() && (#[trigger] v[a]).0 == x;
                assert(w[a].0 == x);
            }
        }
        assert forall|a: int, b: int| 0 <= a < b < w.len() implies (#[trigger] w[a]).0 != (
        #[trigger] w[b]).0 by {
            if b < v.len() {
                assert(v[a].0 != v[b].0);
            } else {
                assert(v[a].0 != t@);
            }
        }
    }
}

fn is_ahead(a: &TagRow, b: &TagRow) -> (r: bool)
    ensures
        r == ahead((a.tag@, a.notes), (b.tag@, b.notes)),
{
    a.notes > b.notes || (a.notes == b.notes && text_less(a.tag.as_str(), b.tag.as_str()))
}

proof fn lemma_ahead(a: (Seq<char>, usize), b: (Seq<char>, usize), c: (Seq<char>, usize))
    ensures
        ahead(a, b) && ahead(b, c) ==> ahead(a, c),
        a.0 != b.0 ==> ahead(a, b) || ahead(b, a),
{
    lemma_text_lt_total(a.0, b.0);
    if text_lt(a.0, b.0) && text_lt(b.0, c.0) {
        lemma_text_lt_transitive(a.0, b.0, c.0);
    }
}

fn insert_row(out: &mut Vec<TagRow>, row: TagRow)
    requires
        in_rank(pairs(old(out)@)),
        forall|k: int|
            0 <= k < old(out)@.len() ==> (#[trigger] pairs(old(out)@)[k]).0 != row.tag@,
    ensures
        in_rank(pairs(final(out)@)),
        forall|x: (Seq<char>, usize)| #[trigger]
            pairs(final(out)@).contains(x) <==> pairs(old(out)@).contains(x) || x == (
                row.tag@,
                row.notes,
            ),
{
    let ghost s = pairs(out@);
    let ghost t = (row.tag@, row.notes);
    let mut p: usize = out.len();
    while p > 0 && is_ahead(&row, &out[p - 1])
        invariant
            s == pairs(out@),
            t == (row.tag@, row.notes),
            p <= out@.len(),
            forall|k: int| p <= k < out@.len() ==> ahead(t, #[trigger] s[k]),
        decreases p,
    {
        assert(s[p - 1] == (out@[p - 1].tag@, out@[p - 1].notes));
        p = p - 1;
    }
    proof {
        assert forall|k: int| 0 <= k < p implies ahead(#[trigger] s[k], t) by {
            assert(s[p - 1] == (out@[p - 1].tag@, out@[p - 1].notes));
            lemma_ahead(s[p - 1], t, t);
            if k < p - 1 {
                assert(ahead(s[k], s[p - 1]));
                lemma_ahead(s[k], s[p - 1], t);
            }
        }
    }
    out.insert(p, row);
    proof {
        let f = pairs(out@);
        assert(f =~= s.insert(p as int, t));
        assert forall|x: (Seq<char>, usize)| #[trigger]
            f.contains(x) <==> s.contains(x) || x == t by {
            if s.contains(x) {
                let i = choose|i: int| 0 <= i < s.len() && s[i] == x;
                if i < p {
                    assert(f[i] == x);
                } else {
                    assert(f[i + 1] == x);
                }
            }
            if x == t {
                assert(f[p as int] == x);
            }
            if f.contains(x) {
                let i = choose|i: int| 0 <= i < f.len() && f[i] == x;
                if i < p {
                    assert(s[i] == x);
                } else if i > p {
                    assert(s[i - 1] == x);
                }
            }
        }
        assert forall|i: int, j: int| 0 <= i < j < f.len() implies ahead(
            #[trigger] f[i],
            #[trigger] f[j],
        ) by {
            let a = if i < p {
                i
            } else {
                i - 1
            };
            let b = if j < p {
                j
            } else {
                j - 1
            };
            if i != p && j != p {
                assert(f[i] == s[a] && f[j] == s[b]);
            } else if i == p {
                assert(f[j] == s[b]);
            } else {
                assert(f[i] == s[a]);
            }
        }
    }
}

spec fn used(g: WireGraph, n: nat) -> spec_fn(Seq<char>) -> nat {
    |t: Seq<char>| uses(g, t, n)
}

/// The counts after the first `n` nodes and the first `k` tags of the next.
spec fn used_and(g: WireGraph, n: nat, ts: Seq<Seq<char>>, k: int) -> spec_fn(Seq<char>) -> nat {
    |t: Seq<char>|
        uses(g, t, n) + if ts.take(k).contains(t) {
            1nat
        } else {
            0nat
        }
}

proof fn lemma_uses(g: WireGraph, t: Seq<char>, n: nat)
    ensures
        uses(g, t, n) <= n,
    decreases n,
{
    if n > 0 {
        lemma_uses(g, t, (n - 1) as nat);
    }
}

/// How often each tag is used, unordered.
fn count_tags(graph: &Graph) -> (r: Vec<TagRow>)
    ensures
        tallies(pairs(r@), used(graph.wire(), graph.wire().nodes@.len())),
{
    let ghost g = graph.wire();
    let held = graph.held();
    let mut counts: Vec<TagRow> = Vec::new();
    let total: usize = held.nodes.len();
    for i in 0..total
        invariant
            total == held.nodes@.len(),
            g == graph.wire(),
            *held == g,
            tallies(pairs(counts@), used(g, i as nat)),
    {
        let n = &held.nodes[i];
        let ghost now = used(g, i as nat);
        let ghost next = used(g, (i + 1) as nat);
        if !n.trashed {
            let tags = graph.tags(n.id);
            let ghost ts = strs(tags@);
            proof {
                assert forall|t: Seq<char>| #[trigger] now(t) == used_and(g, i as nat, ts, 0)(t) by {
                    assert(ts.take(0) =~= Seq::empty());
                }
                lemma_same_tally(pairs(counts@), now, used_and(g, i as nat, ts, 0));
            }
            for k in 0..tags.len()
                invariant
                    i < total,
                    ts == strs(tags@),
                    increasing(ts),
                    tallies(pairs(counts@), used_and(g, i as nat, ts, k as int)),
            {
                let ghost f = used_and(g, i as nat, ts, k as int);
                let ghost t = ts[k as int];
                proof {
                    assert(!ts.take(k as int).contains(t)) by {
                        if ts.take(k as int).contains(t) {
                            let m = choose|m: int|
                                0 <= m < k && ts.take(k as int)[m] == t;
                            assert(text_lt(ts[m], ts[k as int]));
                            lemma_text_lt_irreflexive(t);
                        }
                    }
                    lemma_uses(g, t, i as nat);
                    assert(f(t) <= i);
                    assert(t == tags@[k as int]@);
                }
                bump(&mut counts, tags[k].as_str(), Ghost(f));
                proof {
                    let h = used_and(g, i as nat, ts, k + 1);
                    assert forall|x: Seq<char>| #[trigger] bumped(f, t)(x) == h(x) by {
                        let a = ts.take(k as int);
                        let b = ts.take(k + 1);
                        assert(b =~= a.push(t));
                        if a.contains(x) {
                            let m = choose|m: int| 0 <= m < a.len() && a[m] == x;
                            assert(b[m] == x);
                        }
                        if x == t {
                            assert(b[k as int] == x);
                        }
                        if b.contains(x) {
                            let m = choose|m: int| 0 <= m < b.len() && b[m] == x;
                            if m < k {
                                assert(a[m] == x);
                            }
                        }
                    }
                    lemma_same_tally(pairs(counts@), bumped(f, t), h);
                }
            }
            proof {
                let f = used_and(g, i as nat, ts, tags@.len() as int);
                assert(ts.take(tags@.len() as int) =~= ts);
                assert forall|t: Seq<char>| #[trigger] f(t) == next(t) by {
                    assert(ts.contains(t) <==> is_tagged(g, n.id, t));
                }
                lemma_same_tally(pairs(counts@), f, next);
            }
        } else {
            proof {
                assert forall|t: Seq<char>| #[trigger] now(t) == next(t) by {}
                lemma_same_tally(pairs(counts@), now, next);
            }
        }
    }
    counts
}

/// The tags with how many live notes have each, the most used first and of two that are used
/// alike the smaller.
pub fn tag_rows(graph: &Graph) -> (r: Vec<TagRow>)
    ensures
        is_tag_table(graph.wire(), pairs(r@)),
{
    let ghost g = graph.wire();
    let counts = count_tags(graph);
    let ghost v = pairs(counts@);
    let ghost f = used(g, g.nodes@.len());
    let mut out: Vec<TagRow> = Vec::new();
    for i in 0..counts.len()
        invariant
            v == pairs(counts@),
            tallies(v, f),
            in_rank(pairs(out@)),
            forall|x: (Seq<char>, usize)| #[trigger]
                pairs(out@).contains(x) <==> v.take(i as int).contains(x),
    {
        let ghost a = v.take(i as int);
        let ghost b = v.take(i + 1);
        let ghost was = pairs(out@);
        assert(v[i as int] == (counts@[i as int].tag@, counts@[i as int].notes));
        proof {
            assert(b =~= a.push(v[i as int]));
            assert forall|k: int| 0 <= k < was.len() implies (#[trigger] was[k]).0
                != v[i as int].0 by {
                assert(was.contains(was[k]));
                assert(a.contains(was[k]));
                let m = choose|m: int| 0 <= m < a.len() && a[m] == was[k];
                assert(v[m].0 != v[i as int].0);
            }
        }
        insert_row(&mut out, TagRow { tag: counts[i].tag.clone(), notes: counts[i].notes });
        proof {
            assert forall|x: (Seq<char>, usize)| #[trigger]
                pairs(out@).contains(x) <==> b.contains(x) by {
                assert(pairs(out@).contains(x) <==> was.contains(x) || x == v[i as int]);
                assert(was.contains(x) <==> a.contains(x));
                if a.contains(x) {
                    let m = choose|m: int| 0 <= m < a.len() && a[m] == x;
                    assert(b[m] == x);
                }
                if x == v[i as int] {
                    assert(b[i as int] == x);
                }
                if b.contains(x) {
                    let m = choose|m: int| 0 <= m < b.len() && b[m] == x;
                    if m < i {
                        assert(a[m] == x);
                    }
                }
            }
        }
    }
    proof {
        assert(v.take(v.len() as int) =~= v);
        let w = pairs(out@);
        assert forall|t: Seq<char>, n: usize| #[trigger]
            w.contains((t, n)) <==> n > 0 && n == uses(g, t, g.nodes@.len()) by {
            assert(w.contains((t, n)) <==> v.contains((t, n)));
            if v.contains((t, n)) {
                let m = choose|m: int| 0 <= m < v.len() && v[m] == (t, n);
                assert(v[m].1 == f(v[m].0) && v[m].1 > 0);
            }
            if n > 0 && n == uses(g, t, g.nodes@.len()) {
                assert(f(t) > 0);
                let m = choose|m: int| 0 <= m < v.len() && (#[trigger] v[m]).0 == t;
                assert(v[m].1 == f(v[m].0));
                assert(v[m] == (t, n));
            }
        }
    }
    out
}

/// The graph of a workspace, or why it is not held.
#[derive(Debug)]
pub enum GraphSlot {
    Held(Graph),
    Absent(String),
}

/// What is remembered of a mount.
#[derive(Debug)]
pub enum StateRead {
    NeverSynced,
    /// It could not be read, and why.
    Unreadable(String),
    Read {
        state: WsState,
        graph: GraphSlot,
        /// What has to be said where the mirror is not to be relied on.
        unusable: Option<String>,
    },
}

/// A live folder stands at the path.
pub open spec fn has_folder(g: WireGraph, path: Seq<char>) -> bool {
    exists|i: int|
        0 <= i < g.nodes@.len() && !(#[trigger] g.nodes@[i]).trashed && g.nodes@[i].kind@
            == "folder"@ && g.nodes@[i].path@ == path
}

/// The folder that a verb names and that does not exist. The root always does.
pub open spec fn lacks_folder(g: WireGraph, verb: Verb) -> bool {
    match verb {
        Verb::Ls { folder: Some(f) } => wanted_of(Some(f@)).len() > 0 && !has_folder(
            g,
            wanted_of(Some(f@)),
        ),
        _ => false,
    }
}

/// Why there is no answer. `clean` is the folder asked about, fit to be shown.
pub open spec fn absence(verb: Verb, read: StateRead, clean: Seq<char>) -> Option<Seq<char>> {
    match read {
        StateRead::NeverSynced => Some("this mount has never been synced - run `docli sync`"@),
        StateRead::Unreadable(why) => Some(
            "the local mirror state could not be read ("@ + why@
                + ") - `docli sync --full` rebuilds it"@,
        ),
        StateRead::Read { state, graph: GraphSlot::Absent(why), unusable } => Some(why@),
        StateRead::Read { state, graph: GraphSlot::Held(g), unusable } => if lacks_folder(
            g.wire(),
            verb,
        ) {
            Some(
                "no folder `"@ + clean
                    + "` in the held graph (paths are exact; `docli tree` lists them)"@,
            )
        } else {
            None
        },
    }
}

/// What is disclosed beside an answer.
pub open spec fn disclosed(read: StateRead) -> Seq<Seq<char>> {
    match read {
        StateRead::Read { state, graph: GraphSlot::Held(g), unusable: Some(message) } => seq![
            message@,
        ],
        _ => Seq::empty(),
    }
}

pub open spec fn messages(v: Seq<Disclosure>) -> Seq<Seq<char>> {
    Seq::new(v.len(), |i: int| v[i].message@)
}

/// The rows are those that the verb asks for, each marked by whether the mirror holds it.
pub open spec fn answers_rows(g: WireGraph, verb: Verb, state: WsState, rows: Seq<Row>) -> bool {
    &&& rows.len() == listed(g, verb).len()
    &&& forall|i: int|
        #![trigger rows[i]]
        0 <= i < rows.len() ==> {
            &&& shows_at(g, verb, listed(g, verb)[i], rows[i])
            &&& rows[i].mirrored == state.nodes@.contains_key(rows[i].id)
        }
}

/// What a mount is answered where it can be.
pub open spec fn is_answered(verb: Verb, read: StateRead, r: MountAnswer) -> bool {
    match read {
        StateRead::Read { state, graph: GraphSlot::Held(g), unusable } => if verb is Tags {
            r.rows is None && r.tags is Some && is_tag_table(g.wire(), pairs(r.tags->0@))
        } else {
            r.tags is None && r.rows is Some && answers_rows(g.wire(), verb, state, r.rows->0@)
        },
        _ => false,
    }
}

fn folder_exists(graph: &Graph, path: &str) -> (r: bool)
    ensures
        r == has_folder(graph.wire(), path@),
{
    let held = graph.held();
    for i in 0..held.nodes.len()
        invariant
            *held == graph.wire(),
            forall|k: int|
                0 <= k < i ==> !(!(#[trigger] held.nodes@[k]).trashed && held.nodes@[k].kind@
                    == "folder"@ && held.nodes@[k].path@ == path@),
    {
        let n = &held.nodes[i];
        if !n.trashed && same(n.kind.as_str(), "folder") && same(n.path.as_str(), path) {
            return true;
        }
    }
    false
}

fn folder_is_missing(graph: &Graph, verb: &Verb) -> (r: bool)
    ensures
        r == lacks_folder(graph.wire(), *verb),
{
    match verb {
        Verb::Ls { folder } => match folder {
            Some(_) => {
                let wanted = wanted_folder(folder);
                !wanted.as_str().is_empty() && !folder_exists(graph, wanted.as_str())
            },
            None => false,
        },
        _ => false,
    }
}

/// Answers for one mount. A folder that does not exist is an absence, not an empty folder.
pub fn answer(m: &Mount, verb: &Verb, read: &StateRead, clean: &str) -> (r: MountAnswer)
    ensures
        r.mount@ == shown_name(m.view()),
        r.workspace == m.workspace,
        messages(r.disclosures@) == disclosed(*read),
        opt_str(r.absent) == absence(*verb, *read, clean@),
        r.absent is Some ==> r.rows is None && r.tags is None,
        r.absent is None ==> is_answered(*verb, *read, r),
{
    let mut out = MountAnswer {
        mount: m.display_name().to_owned(),
        workspace: m.workspace,
        rows: None,
        tags: None,
        absent: None,
        disclosures: Vec::new(),
    };
    assert(messages(out.disclosures@) =~= Seq::empty());
    match read {
        StateRead::NeverSynced => {
            out.absent = Some("this mount has never been synced - run `docli sync`".to_owned());
        },
        StateRead::Unreadable(why) => {
            out.absent = Some(
                cat3(
                    "the local mirror state could not be read (",
                    why.as_str(),
                    ") - `docli sync --full` rebuilds it",
                ),
            );
        },
        StateRead::Read { state, graph, unusable } => match graph {
            GraphSlot::Absent(why) => {
                out.absent = Some(why.clone());
            },
            GraphSlot::Held(g) => {
                if let Some(message) = unusable {
                    out.disclosures.push(Disclosure { message: message.clone() });
                    assert(messages(out.disclosures@) =~= seq![message@]);
                }
                if folder_is_missing(g, verb) {
                    out.absent = Some(
                        cat3(
                            "no folder `",
                            clean,
                            "` in the held graph (paths are exact; `docli tree` lists them)",
                        ),
                    );
                    return out;
                }
                match verb {
                    Verb::Tags => {
                        out.tags = Some(tag_rows(g));
                    },
                    _ => {
                        let mirrored = |id: u128| -> (b: bool)
                            ensures
                                b == state.nodes@.contains_key(id),
                            { state.nodes.contains_key(&id) };
                        let ghost m = mirrored;
                        let found = rows(g, verb, mirrored);
                        assert forall|i: int| 0 <= i < found@.len() implies (
                        #[trigger] found@[i]).mirrored == state.nodes@.contains_key(
                            found@[i].id,
                        ) by {
                            assert(call_ensures(m, (found@[i].id,), found@[i].mirrored));
                        }
                        assert(answers_rows(g.wire(), *verb, *state, found@));
                        out.rows = Some(found);
                    },
                }
            },
        },
    }
    out
}

/// The texts of an answer, fit to be shown.
#[derive(Debug)]
pub struct Shown {
    pub mount: String,
    /// For each row its name, where a tree is shown, or else its path.
    pub rows: Vec<String>,
    pub tags: Vec<String>,
}

/// How many slashes a path has.
pub open spec fn slashes(path: Seq<char>) -> nat
    decreases path.len(),
{
    if path.len() == 0 {
        0
    } else {
        slashes(path.drop_last()) + if path.last() == '/' {
            1nat
        } else {
            0nat
        }
    }
}

/// Two spaces for each level.
pub open spec fn indent(depth: nat) -> Seq<char> {
    Seq::new(2 * depth, |i: int| ' ')
}

/// What follows the name of a node.
pub open spec fn suffix(kind: Seq<char>) -> Seq<char> {
    if kind == "folder"@ {
        "/"@
    } else if kind == "attachment"@ {
        "  [file]"@
    } else {
        Seq::empty()
    }
}

/// The text of a row.
pub open spec fn row_text(verb: Verb, row: Row, shown: Seq<char>) -> Seq<char> {
    if verb is Tree {
        indent(slashes(row.path@)) + shown + suffix(row.kind@)
    } else {
        shown + suffix(row.kind@)
    }
}

/// The tags of a row.
pub open spec fn tag_spans(tags: Seq<Seq<char>>) -> Seq<SpanVal> {
    if tags.len() == 0 {
        Seq::empty()
    } else {
        seq![SpanVal::Plain("  "@), SpanVal::Dim("#"@ + join_of(tags, " #"@))]
    }
}

/// The mark of a row that the mirror does not hold.
pub open spec fn mark_spans(mirrored: bool) -> Seq<SpanVal> {
    if mirrored {
        Seq::empty()
    } else {
        seq![SpanVal::Plain("  "@), SpanVal::Dim("(not mirrored here)"@)]
    }
}

pub open spec fn row_spans(verb: Verb, row: Row, shown: Seq<char>) -> Seq<SpanVal> {
    seq![SpanVal::Plain(row_text(verb, row, shown))] + tag_spans(strs(row.tags@)) + mark_spans(
        row.mirrored,
    )
}

/// How many of the first `n` rows the mirror does not hold.
pub open spec fn unmirrored(rows: Seq<Row>, n: nat) -> nat
    decreases n,
{
    if n == 0 {
        0
    } else {
        unmirrored(rows, (n - 1) as nat) + if rows[n - 1].mirrored {
            0nat
        } else {
            1nat
        }
    }
}

/// The length of the longest of the first `n` tags.
pub open spec fn widest(tags: Seq<TagRow>, n: nat) -> nat
    decreases n,
{
    if n == 0 {
        0
    } else {
        let before = widest(tags, (n - 1) as nat);
        let len = tags[n - 1].tag@.len();
        if len > before {
            len
        } else {
            before
        }
    }
}

/// The lines of a table of tags.
pub open spec fn tag_lines(tags: Seq<TagRow>, shown: Seq<Seq<char>>) -> Seq<NoticeVal> {
    if tags.len() == 0 {
        seq![NoticeVal::Detail("no tags"@)]
    } else {
        Seq::new(
            tags.len(),
            |i: int|
                NoticeVal::Styled(
                    seq![
                        SpanVal::Plain(padded(shown[i], widest(tags, tags.len())) + "  "@),
                        SpanVal::Dim(counted(tags[i].notes as nat, "note"@, "notes"@)),
                    ],
                ),
        )
    }
}

/// What is said of rows that the mirror does not hold.
pub open spec fn beyond_mirror(n: nat) -> Seq<char> {
    counted(n, "row"@, "rows"@)
        + " not mirrored here (outside the mount's folder scope, or a kind this mirror does not store) - widen the mount with `docli init --folder`, or read them with `read_note` over the docli MCP connection"@
}

pub open spec fn row_lines(verb: Verb, rows: Seq<Row>, shown: Seq<Seq<char>>) -> Seq<NoticeVal> {
    if rows.len() == 0 {
        seq![NoticeVal::Detail("nothing here"@)]
    } else {
        Seq::new(rows.len(), |i: int| NoticeVal::Styled(row_spans(verb, rows[i], shown[i]))) + if
            unmirrored(rows, rows.len()) > 0 {
            seq![NoticeVal::Detail(beyond_mirror(unmirrored(rows, rows.len())))]
        } else {
            Seq::empty()
        }
    }
}

/// What is printed of an answer.
pub open spec fn rendered(a: MountAnswer, verb: Verb, show_mount: bool, shown: Shown) -> Seq<
    NoticeVal,
> {
    let heading = if show_mount {
        seq![NoticeVal::Heading("["@ + shown.mount@ + "]"@)]
    } else {
        Seq::empty()
    };
    let warnings = Seq::new(
        a.disclosures@.len(),
        |i: int| NoticeVal::Warn(a.disclosures@[i].message@),
    );
    let body = match a.absent {
        Some(why) => seq![NoticeVal::Warn(why@)],
        None => match a.tags {
            Some(tags) => tag_lines(tags@, strs(shown.tags@)),
            None => match a.rows {
                Some(rows) => row_lines(verb, rows@, strs(shown.rows@)),
                None => seq![NoticeVal::Detail("nothing here"@)],
            },
        },
    };
    heading + warnings + body
}

/// There is a shown text for each row and each tag.
pub open spec fn fits(a: MountAnswer, shown: Shown) -> bool {
    &&& a.rows matches Some(rows) ==> shown.rows@.len() == rows@.len()
    &&& a.tags matches Some(tags) ==> shown.tags@.len() == tags@.len()
}

fn indented(path: &str, name: &str) -> (r: String)
    ensures
        r@ == indent(slashes(path@)) + name@,
{
    let v = chars_of(path);
    let mut out = String::new();
    assert(v@.take(0) =~= Seq::empty());
    assert(out@ =~= indent(0));
    for i in 0..v.len()
        invariant
            v@ == path@,
            out@ == indent(slashes(v@.take(i as int))),
    {
        assert(v@.take(i + 1).drop_last() =~= v@.take(i as int));
        if v[i] == '/' {
            let ghost before = out@;
            out.push(' ');
            out.push(' ');
            assert(out@ =~= indent(slashes(v@.take(i + 1))));
        }
    }
    assert(v@.take(v@.len() as int) =~= v@);
    out.push_str(name);
    out
}

fn row_line(verb: &Verb, row: &Row, shown: &str) -> (r: Vec<Span>)
    ensures
        spans(r@) == row_spans(*verb, *row, shown@),
{
    let mut text = match verb {
        Verb::Tree => indented(row.path.as_str(), shown),
        _ => shown.to_owned(),
    };
    let ghost led = text@;
    if same(row.kind.as_str(), "folder") {
        text.push_str("/");
    } else if same(row.kind.as_str(), "attachment") {
        text.push_str("  [file]");
    } else {
        assert(led + Seq::empty() =~= led);
    }
    assert(text@ =~= row_text(*verb, *row, shown@));
    let mut out: Vec<Span> = Vec::new();
    out.push(Span::Plain(text));
    if row.tags.len() > 0 {
        let all = join(&row.tags, " #");
        out.push(Span::Plain("  ".to_owned()));
        out.push(Span::Dim(cat2("#", all.as_str())));
    }
    if !row.mirrored {
        out.push(Span::Plain("  ".to_owned()));
        out.push(Span::Dim("(not mirrored here)".to_owned()));
    }
    assert(spans(out@) =~= row_spans(*verb, *row, shown@));
    out
}

fn widest_tag(tags: &Vec<TagRow>) -> (r: usize)
    ensures
        r == widest(tags@, tags@.len()),
{
    let mut w: usize = 0;
    for i in 0..tags.len()
        invariant
            w == widest(tags@, i as nat),
    {
        let n: usize = tags[i].tag.as_str().unicode_len();
        if n > w {
            w = n;
        }
    }
    w
}

fn render_tags(tags: &Vec<TagRow>, shown: &Vec<String>) -> (r: Vec<Notice>)
    requires
        shown@.len() == tags@.len(),
    ensures
        notices(r@) == tag_lines(tags@, strs(shown@)),
{
    let mut out: Vec<Notice> = Vec::new();
    if tags.len() == 0 {
        out.push(Notice::Detail("no tags".to_owned()));
        assert(notices(out@) =~= tag_lines(tags@, strs(shown@)));
        return out;
    }
    let w: usize = widest_tag(tags);
    let ghost want = tag_lines(tags@, strs(shown@));
    assert(notices(out@) =~= want.take(0));
    for i in 0..tags.len()
        invariant
            tags@.len() > 0,
            shown@.len() == tags@.len(),
            w == widest(tags@, tags@.len()),
            want == tag_lines(tags@, strs(shown@)),
            notices(out@) == want.take(i as int),
    {
        let name = pad_end(shown[i].as_str(), w);
        let mut line: Vec<Span> = Vec::new();
        line.push(Span::Plain(cat2(name.as_str(), "  ")));
        line.push(Span::Dim(plural(tags[i].notes, "note", "notes")));
        assert(strs(shown@)[i as int] == shown@[i as int]@);
        assert(spans(line@) =~= want[i as int]->Styled_0);
        out.push(Notice::Styled(line));
        assert(out@.last().view() == want[i as int]);
        assert(notices(out@) =~= want.take(i as int).push(want[i as int]));
        assert(notices(out@) =~= want.take(i + 1));
    }
    assert(want.take(tags@.len() as int) =~= want);
    out
}

fn render_list(verb: &Verb, rows: &Vec<Row>, shown: &Vec<String>) -> (r: Vec<Notice>)
    requires
        shown@.len() == rows@.len(),
    ensures
        notices(r@) == row_lines(*verb, rows@, strs(shown@)),
{
    let mut out: Vec<Notice> = Vec::new();
    if rows.len() == 0 {
        out.push(Notice::Detail("nothing here".to_owned()));
        assert(notices(out@) =~= row_lines(*verb, rows@, strs(shown@)));
        return out;
    }
    let ghost lines = Seq::new(
        rows@.len(),
        |i: int| NoticeVal::Styled(row_spans(*verb, rows@[i], strs(shown@)[i])),
    );
    assert(notices(out@) =~= lines.take(0));
    let mut missing: usize = 0;
    let total: usize = rows.len();
    for i in 0..total
        invariant
            total == rows@.len(),
            shown@.len() == rows@.len(),
            lines == Seq::new(
                rows@.len(),
                |i: int| NoticeVal::Styled(row_spans(*verb, rows@[i], strs(shown@)[i])),
            ),
            notices(out@) == lines.take(i as int),
            missing == unmirrored(rows@, i as nat),
            missing <= i,
    {
        let line = row_line(verb, &rows[i], shown[i].as_str());
        assert(strs(shown@)[i as int] == shown@[i as int]@);
        if !rows[i].mirrored {
            missing += 1;
        }
        out.push(Notice::Styled(line));
        assert(out@.last().view() == lines[i as int]);
        assert(notices(out@) =~= lines.take(i as int).push(lines[i as int]));
        assert(notices(out@) =~= lines.take(i + 1));
    }
    assert(lines.take(rows@.len() as int) =~= lines);
    if missing > 0 {
        let n = plural(missing, "row", "rows");
        out.push(
            Notice::Detail(
                cat2(
                    n.as_str(),
                    " not mirrored here (outside the mount's folder scope, or a kind this mirror does not store) - widen the mount with `docli init --folder`, or read them with `read_note` over the docli MCP connection",
                ),
            ),
        );
    }
    assert(notices(out@) =~= row_lines(*verb, rows@, strs(shown@)));
    out
}

/// What is printed of an answer.
pub fn render(a: &MountAnswer, verb: &Verb, show_mount: bool, shown: &Shown) -> (r: Vec<Notice>)
    requires
        fits(*a, *shown),
    ensures
        notices(r@) == rendered(*a, *verb, show_mount, *shown),
{
    let mut out: Vec<Notice> = Vec::new();
    if show_mount {
        out.push(Notice::Heading(cat3("[", shown.mount.as_str(), "]")));
    }
    let ghost head = notices(out@);
    let ghost warnings = Seq::new(
        a.disclosures@.len(),
        |i: int| NoticeVal::Warn(a.disclosures@[i].message@),
    );
    assert(head =~= if show_mount {
        seq![NoticeVal::Heading("["@ + shown.mount@ + "]"@)]
    } else {
        Seq::empty()
    });
    assert(notices(out@) =~= head + warnings.take(0));
    for i in 0..a.disclosures.len()
        invariant
            warnings == Seq::new(
                a.disclosures@.len(),
                |i: int| NoticeVal::Warn(a.disclosures@[i].message@),
            ),
            notices(out@) == head + warnings.take(i as int),
    {
        let ghost done = notices(out@);
        out.push(Notice::Warn(a.disclosures[i].message.clone()));
        assert(out@.last().view() == warnings[i as int]);
        assert(warnings.take(i + 1) =~= warnings.take(i as int).push(warnings[i as int]));
        assert(notices(out@) =~= done.push(warnings[i as int]));
        assert(notices(out@) =~= head + warnings.take(i + 1));
    }
    assert(warnings.take(a.disclosures@.len() as int) =~= warnings);
    let ghost before = notices(out@);
    if let Some(why) = &a.absent {
        out.push(Notice::Warn(why.clone()));
        assert(notices(out@) =~= before + seq![NoticeVal::Warn(why@)]);
        return out;
    }
    let mut body = match &a.tags {
        Some(tags) => render_tags(tags, &shown.tags),
        None => match &a.rows {
            Some(rows) => render_list(verb, rows, &shown.rows),
            None => {
                let mut none: Vec<Notice> = Vec::new();
                none.push(Notice::Detail("nothing here".to_owned()));
                assert(notices(none@) =~= seq![NoticeVal::Detail("nothing here"@)]);
                none
            },
        },
    };
    let ghost said = notices(body@);
    out.append(&mut body);
    assert(notices(out@) =~= before + said);
    out
}

/// 1 where some mount could not be answered, else 0.
pub open spec fn exit_of(answers: Seq<MountAnswer>) -> i32 {
    if exists|i: int| 0 <= i < answers.len() && (#[trigger] answers[i]).absent is Some {
        1
    } else {
        0
    }
}

/// What is printed of the answers, one after the other.
pub open spec fn all_rendered(
    answers: Seq<MountAnswer>,
    verb: Verb,
    show_mount: bool,
    shown: Seq<Shown>,
    n: nat,
) -> Seq<NoticeVal>
    decreases n,
{
    if n == 0 {
        Seq::empty()
    } else {
        all_rendered(answers, verb, show_mount, shown, (n - 1) as nat) + rendered(
            answers[n - 1],
            verb,
            show_mount,
            shown[n - 1],
        )
    }
}

/// The lines of the answers and the exit code. A machine gets the answers themselves in place of
/// the lines, with the same exit code. Mounts are told apart where the project has several.
pub fn run(
    answers: &Vec<MountAnswer>,
    verb: &Verb,
    mounts: usize,
    shown: &Vec<Shown>,
    json: bool,
) -> (r: (Vec<Notice>, i32))
    requires
        shown@.len() == answers@.len(),
        forall|i: int| 0 <= i < answers@.len() ==> fits(#[trigger] answers@[i], shown@[i]),
    ensures
        r.1 == exit_of(answers@),
        notices(r.0@) == if json {
            Seq::empty()
        } else {
            all_rendered(answers@, *verb, mounts > 1, shown@, answers@.len())
        },
{
    let mut code: i32 = 0;
    for i in 0..answers.len()
        invariant
            code == 0 || code == 1,
            code == 1 <==> exists|k: int| 0 <= k < i && (#[trigger] answers@[k]).absent is Some,
    {
        if answers[i].absent.is_some() {
            assert(answers@[i as int].absent is Some);
            code = 1;
        }
    }
    let mut out: Vec<Notice> = Vec::new();
    assert(notices(out@) =~= Seq::empty());
    if json {
        return (out, code);
    }
    for i in 0..answers.len()
        invariant
            shown@.len() == answers@.len(),
            forall|i: int| 0 <= i < answers@.len() ==> fits(#[trigger] answers@[i], shown@[i]),
            notices(out@) == all_rendered(answers@, *verb, mounts > 1, shown@, i as nat),
    {
        let ghost before = notices(out@);
        assert(fits(answers@[i as int], shown@[i as int]));
        let mut lines = render(&answers[i], verb, mounts > 1, &shown[i]);
        let ghost said = notices(lines@);
        out.append(&mut lines);
        assert(notices(out@) =~= before + said);
    }
    (out, code)
}

proof fn lemma_between(a: Seq<Seq<char>>, b: Seq<Seq<char>>, c: Seq<Seq<char>>)
    requires
        !parts_lt(b, a),
        !parts_lt(c, b),
        holds(a, c),
    ensures
        holds(a, b),
    decreases a.len(),
{
    if a.len() == 0 {
        assert(b.take(0) =~= a);
    } else {
        assert(c[0] == c.take(a.len() as int)[0]);
        assert(b.len() > 0);
        lemma_text_lt_total(a[0], b[0]);
        assert(a[0] == b[0]);
        let x = a.drop_first();
        let y = b.drop_first();
        let z = c.drop_first();
        assert(z.take(x.len() as int) =~= c.take(a.len() as int).drop_first());
        lemma_between(x, y, z);
        assert(b.take(a.len() as int) =~= seq![b[0]] + y.take(x.len() as int));
        assert(a =~= seq![a[0]] + x);
    }
}

proof fn lemma_selected(g: WireGraph, verb: Verb, n: nat)
    requires
        n <= g.nodes@.len(),
    ensures
        forall|k: int| #[trigger]
            selected(g, verb, n).contains(k) <==> 0 <= k < n && !g.nodes@[k].trashed && chosen(
                g,
                verb,
                g.nodes@[k],
            ),
    decreases n,
{
    if n > 0 {
        lemma_selected(g, verb, (n - 1) as nat);
        let before = selected(g, verb, (n - 1) as nat);
        let after = selected(g, verb, n);
        assert forall|k: int| #[trigger] after.contains(k) implies 0 <= k < n
            && !g.nodes@[k].trashed && chosen(g, verb, g.nodes@[k]) by {
            if k != n - 1 {
                let i = choose|i: int| 0 <= i < after.len() && after[i] == k;
                assert(before[i] == k);
                assert(before.contains(k));
            }
        }
        assert forall|k: int|
            0 <= k < n && !g.nodes@[k].trashed && chosen(g, verb, g.nodes@[k]) implies
            #[trigger] after.contains(k) by {
            if k == n - 1 {
                assert(after[after.len() - 1] == k);
            } else {
                assert(before.contains(k));
                let i = choose|i: int| 0 <= i < before.len() && before[i] == k;
                assert(after[i] == k);
            }
        }
    }
}

/// A listing shows exactly the live nodes that the verb asks for.
pub proof fn a_listing_shows_what_is_asked_for(g: WireGraph, verb: Verb, k: int)
    ensures
        listed(g, verb).contains(k) <==> 0 <= k < g.nodes@.len() && !g.nodes@[k].trashed && chosen(
            g,
            verb,
            g.nodes@[k],
        ),
{
    lemma_selected(g, verb, g.nodes@.len());
    ranking_orders_and_keeps(g.nodes@, Order::Parts, selected(g, verb, g.nodes@.len()));
}

/// What lies between a folder and something in it lies in the folder too, so that an indented
/// tree never shows a row under another folder than its own.
pub proof fn a_folder_keeps_its_rows_together(g: WireGraph, verb: Verb, i: int, j: int, k: int)
    requires
        0 <= i < j < k < listed(g, verb).len(),
        holds(
            split_of(g.nodes@[listed(g, verb)[i]].path@, '/'),
            split_of(g.nodes@[listed(g, verb)[k]].path@, '/'),
        ),
    ensures
        holds(
            split_of(g.nodes@[listed(g, verb)[i]].path@, '/'),
            split_of(g.nodes@[listed(g, verb)[j]].path@, '/'),
        ),
{
    let s = listed(g, verb);
    ranking_orders_and_keeps(g.nodes@, Order::Parts, selected(g, verb, g.nodes@.len()));
    assert(in_order(g.nodes@, Order::Parts, s));
    lemma_between(
        split_of(g.nodes@[s[i]].path@, '/'),
        split_of(g.nodes@[s[j]].path@, '/'),
        split_of(g.nodes@[s[k]].path@, '/'),
    );
}

} // verus!
