//! What a page comes to as a whole, whatever the disk says to each of its deliveries.
//!
//! A run is on course from the state before the page: every step keeps it there, and what holds of
//! a run that is on course and finished holds of the page.

use vstd::prelude::*;

use crate::apply::classified;
use crate::apply::node_at;
use crate::apply::page_of;
use crate::apply::plan_of;
use crate::apply::Claims;
use crate::apply::DeliveredVal;
use crate::apply::DispVal;
use crate::localpath::FsRules;
use crate::page::node_of;
use crate::page::park_of;
use crate::page::PageRun;
use crate::page::Phase;
use crate::plan::classified_page;
use crate::plan::delivers;
use crate::plan::ground_of;
use crate::plan::lemma_verdict_on_put;
use crate::plan::planned;
use crate::plan::planned_puts_never_share_a_place;
use crate::plan::planned_puts_never_take_an_incumbents_place;
use crate::plan::verdicts;
use crate::state::NodeVal;
use crate::state::ParkVal;

verus! {

/// What was remembered before a page.
pub struct Start {
    pub nodes: Map<u128, NodeVal>,
    pub ledger: Set<u128>,
    pub parks: Map<u128, ParkVal>,
}

/// The park of an id, where it is held back.
pub open spec fn park_at(parks: Map<u128, ParkVal>, id: u128) -> Option<ParkVal> {
    if parks.dom().contains(id) {
        Some(parks[id])
    } else {
        None
    }
}

/// The ledger after the first `n` deliveries: it holds what is live.
pub open spec fn ledger_of(ledger: Set<u128>, page: Seq<DeliveredVal>, n: nat) -> Set<u128>
    decreases n,
{
    if n == 0 {
        ledger
    } else {
        let before = ledger_of(ledger, page, (n - 1) as nat);
        if page[n - 1].trashed {
            before.remove(page[n - 1].id)
        } else {
            before.insert(page[n - 1].id)
        }
    }
}

/// No id is delivered twice.
pub open spec fn distinct_ids(page: Seq<DeliveredVal>) -> bool {
    forall|i: int, j: int|
        0 <= i < page.len() && 0 <= j < page.len() && i != j ==> (#[trigger] page[i]).id != (
        #[trigger] page[j]).id
}

/// The ledger has taken note of every delivery before the present one, and perhaps of that one,
/// where it is being materialized.
pub open spec fn ledger_on_course(run: PageRun, s: Start) -> bool {
    let page = page_of(run.page@);
    let k = run.begun();
    ||| run.state.ledger@ == ledger_of(s.ledger, page, k as nat)
    ||| k < page.len() && run.plan@[k].view() is Put && run.state.ledger@ == ledger_of(
        s.ledger,
        page,
        (k + 1) as nat,
    )
}

/// The first of the deliveries that are still to be tried again.
pub open spec fn first_waiting(run: PageRun) -> int {
    if run.phase == Phase::Retrying {
        run.at as int
    } else if run.phase == Phase::Finished {
        run.retries@.len() as int
    } else {
        0
    }
}

/// The delivery is still to be tried again.
pub open spec fn awaited(run: PageRun, j: int) -> bool {
    exists|r: int|
        first_waiting(run) <= r < run.retries@.len() && (#[trigger] run.retries@[r]).at == j
}

/// The node that is remembered for a delivery.
pub open spec fn node_for(run: PageRun, j: int) -> Option<NodeVal> {
    node_at(run.state.nodes_v(), run.page@[j].id)
}

/// The park of a delivery.
pub open spec fn park_for(run: PageRun, j: int) -> Option<ParkVal> {
    park_at(run.state.parks_v(), run.page@[j].id)
}

/// Whether a delivery is held back: as it was planned, and where it was to be materialized just
/// where it is not.
pub open spec fn parked_as(run: PageRun, j: int) -> bool {
    match run.plan@[j].view() {
        DispVal::Park { class, reason } => park_for(run, j) == Some(
            park_of(class, reason, run.page@[j].path@),
        ),
        DispVal::Put { .. } => park_for(run, j) is None <==> node_for(run, j) is Some,
        _ => park_for(run, j) is None,
    }
}

/// What a delivery came to: where it was to be materialized it is, or nothing of it is, and where
/// only the ledger took note of it nothing changed.
pub open spec fn came_to(run: PageRun, j: int, s: Start) -> bool {
    &&& match run.plan@[j].view() {
        DispVal::LedgerOnly => node_for(run, j) == node_at(s.nodes, run.page@[j].id),
        DispVal::Put { .. } => node_for(run, j) is None || node_for(run, j) == Some(
            node_of(run.page@[j].view(), run.plan@[j].view()),
        ),
        _ => node_for(run, j) is None,
    }
    &&& parked_as(run, j)
}

/// The node of that id is the one that the delivery `j` was to materialize.
pub open spec fn put_by(run: PageRun, j: int, id: u128) -> bool {
    &&& 0 <= j < run.begun()
    &&& run.page@[j].id == id
    &&& run.plan@[j].view() is Put
    &&& node_at(run.state.nodes_v(), id) == Some(
        node_of(run.page@[j].view(), run.plan@[j].view()),
    )
}

/// Where the node of an id comes from: a delivery put it there, or it was there before and no
/// delivery so far has settled otherwise.
pub open spec fn comes_from(run: PageRun, id: u128, s: Start) -> bool {
    ||| node_at(run.state.nodes_v(), id) is None
    ||| exists|j: int| #[trigger] put_by(run, j, id)
    ||| node_at(run.state.nodes_v(), id) == node_at(s.nodes, id) && forall|j: int|
        0 <= j < run.begun() && (#[trigger] run.page@[j]).id == id ==> run.plan@[j].view()
            is LedgerOnly || awaited(run, j)
}

/// The run has come from this state by its deliveries and nothing else.
pub open spec fn on_course(run: PageRun, s: Start) -> bool {
    let page = page_of(run.page@);
    &&& ledger_on_course(run, s)
    &&& forall|id: u128|
        !(#[trigger] delivers(page, id)) ==> node_at(run.state.nodes_v(), id) == node_at(
            s.nodes,
            id,
        ) && park_at(run.state.parks_v(), id) == park_at(s.parks, id)
    &&& forall|id: u128| #[trigger] comes_from(run, id, s)
    &&& distinct_ids(page) ==> {
        &&& forall|j: int|
            run.begun() <= j < run.page@.len() ==> #[trigger] node_for(run, j) == node_at(
                s.nodes,
                run.page@[j].id,
            )
        &&& forall|j: int|
            0 <= j < run.begun() ==> awaited(run, j) || #[trigger] came_to(run, j, s)
    }
}

/// Only what is remembered of the delivery `k` is another.
pub open spec fn others_stay(o: PageRun, n: PageRun, k: int) -> bool {
    forall|id: u128|
        #![trigger node_at(n.state.nodes_v(), id)]
        #![trigger park_at(n.state.parks_v(), id)]
        id != o.page@[k].id ==> node_at(n.state.nodes_v(), id) == node_at(o.state.nodes_v(), id)
            && park_at(n.state.parks_v(), id) == park_at(o.state.parks_v(), id)
}

/// What a step makes of the node and the park of the delivery `k`.
pub open spec fn stepped(o: PageRun, n: PageRun, k: int) -> bool {
    match o.plan@[k].view() {
        DispVal::LedgerOnly => node_for(n, k) == node_for(o, k) && parked_as(n, k),
        DispVal::Put { .. } => {
            ||| node_for(n, k) is None && parked_as(n, k)
            ||| node_for(n, k) == Some(node_of(o.page@[k].view(), o.plan@[k].view())) && parked_as(
                n,
                k,
            )
            ||| awaited(n, k) && node_for(n, k) == node_for(o, k)
        },
        _ => node_for(n, k) is None && parked_as(n, k),
    }
}

/// A step that concerns one delivery keeps the run on course.
pub proof fn lemma_step_keeps_course(o: PageRun, n: PageRun, s: Start, k: int)
    requires
        on_course(o, s),
        n.same_page(&o),
        o.page@.len() == o.plan@.len(),
        0 <= k < o.page@.len(),
        others_stay(o, n, k),
        ledger_on_course(n, s),
        o.begun() <= n.begun() <= o.begun() + 1,
        n.begun() <= n.page@.len(),
        n.begun() == o.begun() + 1 ==> k == o.begun(),
        forall|j: int| j != k && awaited(o, j) ==> #[trigger] awaited(n, j),
        k < n.begun() ==> stepped(o, n, k),
        k < o.begun() ==> o.plan@[k].view() is Put,
        n.begun() <= k ==> node_for(n, k) == node_for(o, k),
    ensures
        on_course(n, s),
{
    let page = page_of(o.page@);
    assert forall|id: u128| !(#[trigger] delivers(page, id)) implies node_at(
        n.state.nodes_v(),
        id,
    ) == node_at(s.nodes, id) && park_at(n.state.parks_v(), id) == park_at(s.parks, id) by {
        assert(page[k].id == o.page@[k].id);
        assert(id != o.page@[k].id);
    }
    assert forall|id: u128| #[trigger] comes_from(n, id, s) by {
        assert(comes_from(o, id, s));
        if k < n.begun() && id == o.page@[k].id && node_for(n, k) == Some(
            node_of(o.page@[k].view(), o.plan@[k].view()),
        ) && o.plan@[k].view() is Put {
            assert(put_by(n, k, id));
        } else if node_at(n.state.nodes_v(), id) is Some {
            assert(node_at(n.state.nodes_v(), id) == node_at(o.state.nodes_v(), id));
            if exists|j: int| #[trigger] put_by(o, j, id) {
                let j = choose|j: int| #[trigger] put_by(o, j, id);
                assert(put_by(n, j, id));
            } else {
                assert forall|j: int|
                    0 <= j < n.begun() && (#[trigger] n.page@[j]).id == id implies n.plan@[j].view()
                    is LedgerOnly || awaited(n, j) by {
                    if j != k {
                        assert(o.page@[j].id == id);
                    }
                }
            }
        }
    }
    if distinct_ids(page) {
        assert(o.begun() <= k ==> node_for(o, k) == node_at(s.nodes, o.page@[k].id));
        assert forall|j: int| n.begun() <= j < n.page@.len() implies #[trigger] node_for(n, j)
            == node_at(s.nodes, n.page@[j].id) by {
            assert(node_for(o, j) == node_at(s.nodes, o.page@[j].id));
            if j != k {
                assert(page[j].id != page[k].id);
            }
        }
        assert forall|j: int| 0 <= j < n.begun() implies awaited(n, j) || #[trigger] came_to(
            n,
            j,
            s,
        ) by {
            if j != k {
                assert(page[j].id != page[k].id);
                assert(awaited(o, j) || came_to(o, j, s));
                assert(node_for(n, j) == node_for(o, j));
                assert(park_for(n, j) == park_for(o, j));
            }
        }
    }
}

/// A step that leaves what is remembered as it is, and what is waiting, keeps the run on course.
pub proof fn lemma_pass_keeps_course(o: PageRun, n: PageRun, s: Start)
    requires
        on_course(o, s),
        n.same_page(&o),
        n.state == o.state,
        n.begun() == o.begun(),
        forall|j: int| awaited(o, j) ==> #[trigger] awaited(n, j),
    ensures
        on_course(n, s),
{
    let page = page_of(o.page@);
    assert forall|id: u128| #[trigger] comes_from(n, id, s) by {
        assert(comes_from(o, id, s));
        if exists|j: int| #[trigger] put_by(o, j, id) {
            let j = choose|j: int| #[trigger] put_by(o, j, id);
            assert(put_by(n, j, id));
        }
    }
    if distinct_ids(page) {
        assert forall|j: int| n.begun() <= j < n.page@.len() implies #[trigger] node_for(n, j)
            == node_at(s.nodes, n.page@[j].id) by {
            assert(node_for(o, j) == node_at(s.nodes, o.page@[j].id));
        }
        assert forall|j: int| 0 <= j < n.begun() implies awaited(n, j) || #[trigger] came_to(
            n,
            j,
            s,
        ) by {
            assert(awaited(o, j) || came_to(o, j, s));
        }
    }
}

/// The ledger takes note of the present delivery, once or again.
pub proof fn lemma_note_taken(o: PageRun, s: Start)
    requires
        ledger_on_course(o, s),
        o.phase == Phase::Writing,
        o.at < o.page@.len(),
    ensures
        o.ledger_after() == ledger_of(s.ledger, page_of(o.page@), (o.at + 1) as nat),
{
    let page = page_of(o.page@);
    let k = o.at as int;
    assert(page[k] == o.here());
    assert(o.ledger_after() =~= ledger_of(s.ledger, page, (k + 1) as nat));
}

/// A run that was only just begun is on course.
pub proof fn lemma_begins_on_course(run: PageRun)
    requires
        run.phase == Phase::Writing,
        run.at == 0,
    ensures
        on_course(
            run,
            (Start {
                nodes: run.state.nodes_v(),
                ledger: run.state.ledger@,
                parks: run.state.parks_v(),
            }),
        ),
{
}

proof fn lemma_ledger_of(ledger: Set<u128>, page: Seq<DeliveredVal>, n: nat, id: u128)
    requires
        n <= page.len(),
    ensures
        (forall|j: int| 0 <= j < n ==> (#[trigger] page[j]).id != id) ==> ledger_of(
            ledger,
            page,
            n,
        ).contains(id) == ledger.contains(id),
        forall|k: int|
            0 <= k < n && (#[trigger] page[k]).id == id && (forall|j: int|
                0 <= j < n && j != k ==> (#[trigger] page[j]).id != id) ==> ledger_of(
                ledger,
                page,
                n,
            ).contains(id) == !page[k].trashed,
    decreases n,
{
    if n > 0 {
        lemma_ledger_of(ledger, page, (n - 1) as nat, id);
    }
}

/// What a page does not deliver stays as it was: the node, the park and the place in the ledger.
pub proof fn a_page_changes_only_what_it_delivers(run: PageRun, s: Start, id: u128)
    requires
        on_course(run, s),
        run.phase == Phase::Finished,
        !delivers(page_of(run.page@), id),
    ensures
        node_at(run.state.nodes_v(), id) == node_at(s.nodes, id),
        park_at(run.state.parks_v(), id) == park_at(s.parks, id),
        run.state.ledger@.contains(id) == s.ledger.contains(id),
{
    let page = page_of(run.page@);
    assert forall|j: int| 0 <= j < page.len() implies (#[trigger] page[j]).id != id by {}
    lemma_ledger_of(s.ledger, page, page.len(), id);
}

/// After a page the ledger is what its deliveries make of it, one after the other.
pub proof fn the_ledger_is_what_the_deliveries_make_of_it(run: PageRun, s: Start)
    requires
        on_course(run, s),
        run.phase == Phase::Finished,
    ensures
        run.state.ledger@ == ledger_of(s.ledger, page_of(run.page@), run.page@.len()),
{
}

/// An id that a page delivers once is in the ledger after it just where it was delivered live.
pub proof fn the_ledger_holds_what_is_live(run: PageRun, s: Start, k: int)
    requires
        on_course(run, s),
        run.phase == Phase::Finished,
        0 <= k < run.page@.len(),
        forall|j: int|
            0 <= j < run.page@.len() && j != k ==> (#[trigger] run.page@[j]).id != run.page@[k].id,
    ensures
        run.state.ledger@.contains(run.page@[k].id) == !run.page@[k].trashed,
{
    let page = page_of(run.page@);
    assert(page[k].id == run.page@[k].id);
    assert forall|j: int| 0 <= j < page.len() && j != k implies (#[trigger] page[j]).id
        != page[k].id by {
        assert(page[j].id == run.page@[j].id);
    }
    lemma_ledger_of(s.ledger, page, page.len(), page[k].id);
}

/// After a page that delivers no id twice, each of its deliveries is materialized as it was planned,
/// or nothing of it is.
pub proof fn a_finished_page_keeps_to_its_plan(run: PageRun, s: Start, k: int)
    requires
        on_course(run, s),
        run.phase == Phase::Finished,
        distinct_ids(page_of(run.page@)),
        0 <= k < run.page@.len(),
    ensures
        came_to(run, k, s),
{
    assert(awaited(run, k) || came_to(run, k, s));
}

/// After a page that delivers no id twice, a delivery that was to be taken away, or of which only
/// the ledger took note, is not held back, whatever was held back of it before.
pub proof fn what_is_gone_leaves_no_park(run: PageRun, s: Start, k: int)
    requires
        on_course(run, s),
        run.phase == Phase::Finished,
        distinct_ids(page_of(run.page@)),
        0 <= k < run.page@.len(),
        run.plan@[k].view() is LedgerOnly || run.plan@[k].view() is Remove,
    ensures
        park_at(run.state.parks_v(), run.page@[k].id) is None,
{
    a_finished_page_keeps_to_its_plan(run, s, k);
}

/// After a planned page that delivers no id twice, a delivery that is trashed is not held back.
pub proof fn what_is_trashed_leaves_no_park(
    run: PageRun,
    s: Start,
    idx: Claims,
    scope: Option<Seq<char>>,
    controls: Seq<Seq<char>>,
    rules: FsRules,
    k: int,
)
    requires
        on_course(run, s),
        run.phase == Phase::Finished,
        run.page@.len() == run.plan@.len(),
        plan_of(run.plan@) == planned(
            s.nodes,
            s.ledger,
            s.parks,
            idx,
            run.ws,
            scope,
            controls,
            rules,
            page_of(run.page@),
        ),
        distinct_ids(page_of(run.page@)),
        0 <= k < run.page@.len(),
        run.page@[k].trashed,
    ensures
        park_at(run.state.parks_v(), run.page@[k].id) is None,
{
    let page = page_of(run.page@);
    let cls = classified_page(s.nodes, idx, run.ws, scope, controls, rules, page);
    assert(page[k].trashed);
    assert(cls[k] == classified(
        s.nodes.dom().contains(page[k].id),
        idx,
        run.ws,
        scope,
        controls,
        rules,
        page[k],
    ));
    assert(plan_of(run.plan@)[k] == run.plan@[k].view());
    let g = ground_of(s.nodes, s.ledger, s.parks, scope, page);
    assert(run.page.len() == run.page@.len());
    if verdicts(g, page, cls).dom().contains(page[k].id) {
        let at = lemma_verdict_on_put(g, page, cls, page[k].id);
        assert(page[at].id == page[k].id);
        assert(at == k);
    }
    what_is_gone_leaves_no_park(run, s, k);
}

/// No two nodes that the ledger holds live lie at one fold key.
pub open spec fn live_apart(nodes: Map<u128, NodeVal>, ledger: Set<u128>) -> bool {
    forall|a: u128, b: u128|
        #![trigger nodes[a], nodes[b]]
        nodes.dom().contains(a) && nodes.dom().contains(b) && ledger.contains(a)
            && ledger.contains(b) && a != b ==> nodes[a].local.fold != nodes[b].local.fold
}

/// A page that was planned keeps the live nodes apart: no two of them come to lie at one fold key.
pub proof fn a_page_keeps_live_nodes_apart(
    run: PageRun,
    s: Start,
    idx: Claims,
    scope: Option<Seq<char>>,
    controls: Seq<Seq<char>>,
    rules: FsRules,
)
    requires
        on_course(run, s),
        run.phase == Phase::Finished,
        run.page@.len() == run.plan@.len(),
        plan_of(run.plan@) == planned(
            s.nodes,
            s.ledger,
            s.parks,
            idx,
            run.ws,
            scope,
            controls,
            rules,
            page_of(run.page@),
        ),
        s.nodes.dom().finite(),
        live_apart(s.nodes, s.ledger),
    ensures
        live_apart(run.state.nodes_v(), run.state.ledger@),
{
    let page = page_of(run.page@);
    let nodes = run.state.nodes_v();
    let ledger = run.state.ledger@;
    assert forall|a: u128, b: u128|
        #![trigger nodes[a], nodes[b]]
        nodes.dom().contains(a) && nodes.dom().contains(b) && ledger.contains(a)
            && ledger.contains(b) && a != b implies nodes[a].local.fold != nodes[b].local.fold by {
        if !delivers(page, a) {
            a_page_changes_only_what_it_delivers(run, s, a);
        }
        if !delivers(page, b) {
            a_page_changes_only_what_it_delivers(run, s, b);
        }
        if delivers(page, a) {
            let i = lemma_put_there(run, s, idx, scope, controls, rules, a);
            if delivers(page, b) {
                let j = lemma_put_there(run, s, idx, scope, controls, rules, b);
                planned_puts_never_share_a_place(
                    ground_of(s.nodes, s.ledger, s.parks, scope, page),
                    page,
                    classified_page(s.nodes, idx, run.ws, scope, controls, rules, page),
                    i,
                    j,
                );
            } else {
                planned_puts_never_take_an_incumbents_place(
                    s.nodes,
                    s.ledger,
                    s.parks,
                    idx,
                    run.ws,
                    scope,
                    controls,
                    rules,
                    page,
                    i,
                    b,
                );
            }
        } else if delivers(page, b) {
            let j = lemma_put_there(run, s, idx, scope, controls, rules, b);
            planned_puts_never_take_an_incumbents_place(
                s.nodes,
                s.ledger,
                s.parks,
                idx,
                run.ws,
                scope,
                controls,
                rules,
                page,
                j,
                a,
            );
        } else {
            assert(s.nodes[a].local.fold != s.nodes[b].local.fold);
        }
    }
}

/// A delivered node that is remembered after the page lies where the plan put it.
proof fn lemma_put_there(
    run: PageRun,
    s: Start,
    idx: Claims,
    scope: Option<Seq<char>>,
    controls: Seq<Seq<char>>,
    rules: FsRules,
    id: u128,
) -> (i: int)
    requires
        on_course(run, s),
        run.phase == Phase::Finished,
        run.page@.len() == run.plan@.len(),
        plan_of(run.plan@) == planned(
            s.nodes,
            s.ledger,
            s.parks,
            idx,
            run.ws,
            scope,
            controls,
            rules,
            page_of(run.page@),
        ),
        delivers(page_of(run.page@), id),
        run.state.nodes_v().dom().contains(id),
    ensures
        0 <= i < run.page@.len(),
        page_of(run.page@)[i].id == id,
        plan_of(run.plan@)[i] is Put,
        run.state.nodes_v()[id].local == plan_of(run.plan@)[i]->local,
{
    let page = page_of(run.page@);
    assert(comes_from(run, id, s));
    let i = if exists|j: int| #[trigger] put_by(run, j, id) {
        choose|j: int| #[trigger] put_by(run, j, id)
    } else {
        choose|i: int| 0 <= i < page.len() && (#[trigger] page[i]).id == id
    };
    assert(page[i].id == run.page@[i].id);
    assert(plan_of(run.plan@)[i] == run.plan@[i].view());
    let cls = classified_page(s.nodes, idx, run.ws, scope, controls, rules, page);
    assert(cls[i] == classified(
        s.nodes.dom().contains(page[i].id),
        idx,
        run.ws,
        scope,
        controls,
        rules,
        page[i],
    ));
    i
}

} // verus!
