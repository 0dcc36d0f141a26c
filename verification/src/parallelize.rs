//! The scheduler state: which steps wait, which run and which are done,
//! and the rule by which a waiting step may start.

use crate::depgraph::IdGraph;
use crate::reach::{closed, depends, edge, DepMap};
use crate::step::{without, IdSet, StepId};
use vstd::prelude::*;
use vstd::set_lib::{lemma_len_subset, lemma_set_disjoint_lens};

verus! {

/// What happened to a step, in the order in which it happened.
pub enum Event {
    /// The step was handed out to run.
    Started(StepId),
    /// The step was reported complete.
    Finished(StepId),
}

/// The step `s` was handed out at position `k` of the trace.
pub open spec fn starts_at(trace: Seq<Event>, s: StepId, k: int) -> bool {
    0 <= k < trace.len() && trace[k] == Event::Started(s)
}

/// The step `s` was reported complete at position `k` of the trace.
pub open spec fn finishes_at(trace: Seq<Event>, s: StepId, k: int) -> bool {
    0 <= k < trace.len() && trace[k] == Event::Finished(s)
}

/// The step `s` was handed out somewhere before position `k`.
pub open spec fn started_before(trace: Seq<Event>, s: StepId, k: int) -> bool {
    exists|j: int| j < k && #[trigger] starts_at(trace, s, j)
}

/// The step `s` was reported complete somewhere before position `k`.
pub open spec fn finished_before(trace: Seq<Event>, s: StepId, k: int) -> bool {
    exists|j: int| j < k && #[trigger] finishes_at(trace, s, j)
}

/// Pending, running and completed steps over a dependency graph.
pub struct Parallelizer {
    graph: IdGraph,
    pending: IdSet,
    running: IdSet,
    trace: Ghost<Seq<Event>>,
}

impl Parallelizer {
    /// The dependency relation that is scheduled.
    pub closed spec fn graph(&self) -> DepMap {
        self.graph@
    }

    /// The steps that have not been handed out.
    pub closed spec fn pending(&self) -> Set<StepId> {
        self.pending@
    }

    /// The steps that were handed out and are not yet complete.
    pub closed spec fn running(&self) -> Set<StepId> {
        self.running@
    }

    /// The steps that are complete.
    pub open spec fn completed(&self) -> Set<StepId> {
        self.graph().dom().difference(self.pending()).difference(self.running())
    }

    /// Everything that was handed out or reported complete so far, in order.
    pub closed spec fn trace(&self) -> Seq<Event> {
        self.trace@
    }

    /// The order in which the pending steps are examined.
    pub closed spec fn scan_order(&self) -> Seq<StepId> {
        self.pending.order()
    }

    /// No predecessor of `s` is pending or running.
    pub open spec fn ready(&self, s: StepId) -> bool {
        forall|d: StepId| #[trigger]
            edge(self.graph(), s, d) ==> !self.pending().contains(d) && !self.running().contains(d)
    }

    /// The graph and the two sets are well formed.
    pub closed spec fn repr_wf(&self) -> bool {
        &&& self.graph.wf()
        &&& self.pending.wf()
        &&& self.running.wf()
    }

    /// The state is consistent: each node is in exactly one of pending,
    /// running and completed, and the trace tells how it got there. A step
    /// was handed out only after each of its predecessors among the nodes
    /// was reported complete.
    pub open spec fn wf(&self) -> bool {
        &&& self.repr_wf()
        &&& self.graph().dom().finite()
        &&& self.pending().subset_of(self.graph().dom())
        &&& self.running().subset_of(self.graph().dom())
        &&& self.pending().disjoint(self.running())
        &&& forall|s: StepId|
            self.pending().contains(s) <==> self.graph().dom().contains(s) && !started_before(
                self.trace(),
                s,
                self.trace().len() as int,
            )
        &&& forall|s: StepId|
            self.running().contains(s) <==> started_before(
                self.trace(),
                s,
                self.trace().len() as int,
            ) && !finished_before(self.trace(), s, self.trace().len() as int)
        &&& forall|s: StepId, k: int| #[trigger]
            starts_at(self.trace(), s, k) ==> self.graph().dom().contains(s)
        &&& forall|s: StepId, k: int| #[trigger]
            finishes_at(self.trace(), s, k) ==> started_before(self.trace(), s, k)
        &&& forall|s: StepId, d: StepId, k: int|
            #[trigger] starts_at(self.trace(), s, k) && #[trigger] edge(self.graph(), s, d)
                && self.graph().dom().contains(d) ==> finished_before(self.trace(), d, k)
    }

    /// A scheduler over a graph, with every node pending.
    pub fn from_graph(graph: IdGraph) -> (scheduler: Self)
        requires
            graph.wf(),
        ensures
            scheduler.wf(),
            scheduler.graph() == graph@,
            scheduler.pending() == graph@.dom(),
            scheduler.running() == Set::<StepId>::empty(),
            scheduler.trace() == Seq::<Event>::empty(),
            scheduler.scan_order() == graph.node_order(),
    {
        let pending = graph.nodes();
        proof {
            graph.lemma_finite();
        }
        let scheduler = Parallelizer {
            graph,
            pending,
            running: IdSet::new(),
            trace: Ghost(Seq::empty()),
        };
        proof {
            assert forall|s: StepId| !started_before(scheduler.trace(), s, 0) by {
                if started_before(scheduler.trace(), s, 0) {
                    let j = choose|j: int| j < 0 && #[trigger] starts_at(scheduler.trace(), s, j);
                }
            }
        }
        scheduler
    }

    /// Whether nothing is pending or running.
    pub fn is_done(&self) -> (done: bool)
        requires
            self.wf(),
        ensures
            done == (self.pending() == Set::<StepId>::empty() && self.running() == Set::<
                StepId,
            >::empty()),
            done ==> self.completed() == self.graph().dom(),
    {
        let done = self.pending.is_empty() && self.running.is_empty();
        proof {
            if done {
                assert(self.completed() =~= self.graph().dom());
            }
        }
        done
    }

    /// Number of nodes.
    pub fn total_count(&self) -> (n: u64)
        requires
            self.wf(),
        ensures
            n == self.graph().dom().len(),
    {
        let nodes = self.graph.nodes();
        nodes.len() as u64
    }

    /// Number of pending steps.
    pub fn pending_count(&self) -> (n: u64)
        requires
            self.wf(),
        ensures
            n == self.pending().len(),
    {
        self.pending.len() as u64
    }

    /// Number of running steps.
    pub fn running_count(&self) -> (n: u64)
        requires
            self.wf(),
        ensures
            n == self.running().len(),
    {
        self.running.len() as u64
    }

    /// The pending steps are examined each once.
    pub proof fn lemma_scan_order(&self)
        requires
            self.wf(),
        ensures
            self.scan_order().no_duplicates(),
            self.scan_order().to_set() == self.pending(),
    {
        self.pending.lemma_order();
    }

    /// The three states share out the nodes.
    pub proof fn lemma_counts(&self)
        requires
            self.wf(),
        ensures
            self.pending().finite(),
            self.running().finite(),
            self.completed().finite(),
            self.pending().len() + self.running().len() + self.completed().len()
                == self.graph().dom().len(),
    {
        let dom = self.graph().dom();
        let busy = self.pending() + self.running();
        lemma_len_subset(self.pending(), dom);
        lemma_len_subset(self.running(), dom);
        lemma_len_subset(self.completed(), dom);
        lemma_set_disjoint_lens(self.pending(), self.running());
        assert(busy.disjoint(self.completed()));
        lemma_len_subset(busy, dom);
        lemma_set_disjoint_lens(busy, self.completed());
        assert(busy + self.completed() =~= dom);
    }

    /// Number of completed steps.
    pub fn completed_count(&self) -> (n: u64)
        requires
            self.wf(),
        ensures
            n == self.completed().len(),
    {
        proof {
            self.lemma_counts();
        }
        self.total_count() - self.pending_count() - self.running_count()
    }

    /// The running steps.
    pub fn running_ids(&self) -> (ids: IdSet)
        requires
            self.wf(),
        ensures
            ids.wf(),
            ids@ == self.running(),
    {
        self.running.clone()
    }

    /// Whether a step is running.
    pub fn is_running(&self, step: StepId) -> (yes: bool)
        ensures
            yes == self.running().contains(step),
    {
        self.running.contains(step)
    }

    fn is_ready(&self, step: StepId) -> (yes: bool)
        requires
            self.wf(),
            self.graph().dom().contains(step),
        ensures
            yes == self.ready(step),
    {
        let deps = self.graph.dependencies_of(step);
        proof {
            deps.lemma_order();
        }
        let mut j: usize = 0;
        while j < deps.len()
            invariant
                deps.wf(),
                deps@ == self.graph()[step],
                self.graph().dom().contains(step),
                j <= deps.order().len(),
                forall|l: int|
                    0 <= l < j ==> !self.pending().contains(#[trigger] deps.order()[l])
                        && !self.running().contains(deps.order()[l]),
            decreases deps.order().len() - j,
        {
            let d = deps.get(j);
            if self.running.contains(d) || self.pending.contains(d) {
                assert(edge(self.graph(), step, d));
                return false;
            }
            j += 1;
        }
        proof {
            deps.lemma_order();
            assert forall|d: StepId| #[trigger] edge(self.graph(), step, d) implies !self.pending().contains(
                d,
            ) && !self.running().contains(d) by {
                assert(deps.order().contains(d));
                let l = choose|l: int| 0 <= l < deps.order().len() && deps.order()[l] == d;
                assert(deps.order()[l] == d);
            }
        }
        true
    }

    /// Hands out the first pending step, in the order in which the pending
    /// steps are examined, none of whose predecessors is pending or
    /// running, and moves it to the running steps. Gives `None` exactly when
    /// no pending step can start.
    pub fn get_task(&mut self) -> (task: Option<StepId>)
        requires
            old(self).wf(),
        ensures
            final(self).wf(),
            final(self).graph() == old(self).graph(),
            match task {
                Some(s) => {
                    &&& old(self).pending().contains(s)
                    &&& old(self).ready(s)
                    &&& forall|d: StepId| #[trigger]
                        edge(old(self).graph(), s, d) && old(self).graph().dom().contains(d)
                            ==> old(self).completed().contains(d)
                    &&& final(self).pending() == old(self).pending().remove(s)
                    &&& final(self).running() == old(self).running().insert(s)
                    &&& final(self).completed() == old(self).completed()
                    &&& final(self).trace() == old(self).trace().push(Event::Started(s))
                    &&& exists|l: int|
                        0 <= l < old(self).scan_order().len() && #[trigger] old(
                            self,
                        ).scan_order()[l] == s && forall|k: int|
                            0 <= k < l ==> !old(self).ready(#[trigger] old(self).scan_order()[k])
                    &&& final(self).scan_order() == without(old(self).scan_order(), s)
                },
                None => {
                    &&& forall|s: StepId| old(self).pending().contains(s) ==> !old(self).ready(s)
                    &&& final(self).pending() == old(self).pending()
                    &&& final(self).running() == old(self).running()
                    &&& final(self).trace() == old(self).trace()
                    &&& final(self).scan_order() == old(self).scan_order()
                },
            },
    {
        proof {
            self.pending.lemma_order();
        }
        let mut i: usize = 0;
        while i < self.pending.len()
            invariant
                *self == *old(self),
                self.wf(),
                i <= self.pending.order().len(),
                forall|l: int| 0 <= l < i ==> !self.ready(#[trigger] self.pending.order()[l]),
            decreases self.pending.order().len() - i,
        {
            let p = self.pending.get(i);
            if self.is_ready(p) {
                let ghost before = self.trace@;
                let ghost n = before.len() as int;
                self.running.insert(p);
                self.pending.remove(p);
                self.trace = Ghost(before.push(Event::Started(p)));
                proof {
                    let after = self.trace@;
                    assert(starts_at(after, p, n));
                    assert forall|s: StepId, k: int| starts_at(before, s, k) implies starts_at(
                        after,
                        s,
                        k,
                    ) by {}
                    assert forall|s: StepId, k: int| finishes_at(before, s, k) implies finishes_at(
                        after,
                        s,
                        k,
                    ) by {}
                    assert forall|s: StepId, k: int|
                        k <= n implies started_before(after, s, k) == started_before(
                        before,
                        s,
                        k,
                    ) by {
                        if started_before(after, s, k) {
                            let j = choose|j: int| j < k && #[trigger] starts_at(after, s, j);
                            assert(starts_at(before, s, j));
                        }
                        if started_before(before, s, k) {
                            let j = choose|j: int| j < k && #[trigger] starts_at(before, s, j);
                            assert(starts_at(after, s, j));
                        }
                    }
                    assert forall|s: StepId, k: int|
                        k <= n + 1 implies finished_before(after, s, k) == finished_before(
                        before,
                        s,
                        k,
                    ) by {
                        if finished_before(after, s, k) {
                            let j = choose|j: int| j < k && #[trigger] finishes_at(after, s, j);
                            assert(finishes_at(before, s, j));
                        }
                        if finished_before(before, s, k) {
                            let j = choose|j: int| j < k && #[trigger] finishes_at(before, s, j);
                            assert(finishes_at(after, s, j));
                        }
                    }
                    assert forall|s: StepId|
                        started_before(after, s, n + 1) == (started_before(before, s, n) || s
                            == p) by {
                        if started_before(after, s, n + 1) {
                            let j = choose|j: int| j < n + 1 && #[trigger] starts_at(after, s, j);
                            if j < n {
                                assert(starts_at(before, s, j));
                            }
                        }
                        if started_before(before, s, n) {
                            let j = choose|j: int| j < n && #[trigger] starts_at(before, s, j);
                            assert(starts_at(after, s, j));
                        }
                    }
                    assert(!finished_before(before, p, n)) by {
                        if finished_before(before, p, n) {
                            let j = choose|j: int| j < n && #[trigger] finishes_at(before, p, j);
                            assert(started_before(before, p, j));
                            let i0 = choose|i0: int| i0 < j && #[trigger] starts_at(before, p, i0);
                            assert(started_before(before, p, n));
                        }
                    }
                    assert forall|s: StepId, k: int| #[trigger]
                        finishes_at(after, s, k) implies started_before(after, s, k) by {
                        assert(finishes_at(before, s, k));
                    }
                    assert forall|s: StepId, d: StepId, k: int|
                        #[trigger] starts_at(after, s, k) && #[trigger] edge(self.graph(), s, d)
                            && self.graph().dom().contains(d) implies finished_before(
                        after,
                        d,
                        k,
                    ) by {
                        if k < n {
                            assert(starts_at(before, s, k));
                        } else {
                            assert(s == p);
                            assert(!old(self).pending().contains(d));
                            assert(!old(self).running().contains(d));
                            assert(started_before(before, d, n));
                        }
                    }
                    assert(self.completed() =~= old(self).completed());
                    assert(old(self).scan_order()[i as int] == p);
                    assert forall|d: StepId| #[trigger]
                        edge(old(self).graph(), p, d) && old(self).graph().dom().contains(
                            d,
                        ) implies old(self).completed().contains(d) by {}
                }
                return Some(p);
            }
            i += 1;
        }
        proof {
            assert forall|s: StepId| old(self).pending().contains(s) implies !old(self).ready(
                s,
            ) by {
                assert(self.pending.order().contains(s));
                let l = choose|l: int|
                    0 <= l < self.pending.order().len() && self.pending.order()[l] == s;
                assert(!self.ready(self.pending.order()[l]));
            }
        }
        None
    }

    /// Records that a running step is complete.
    pub fn mark_complete(&mut self, step: StepId)
        requires
            old(self).wf(),
            old(self).running().contains(step),
        ensures
            final(self).wf(),
            final(self).graph() == old(self).graph(),
            final(self).pending() == old(self).pending(),
            final(self).running() == old(self).running().remove(step),
            final(self).completed() == old(self).completed().insert(step),
            final(self).trace() == old(self).trace().push(Event::Finished(step)),
            final(self).scan_order() == old(self).scan_order(),
    {
        let ghost before = self.trace@;
        let ghost n = before.len() as int;
        self.running.remove(step);
        self.trace = Ghost(before.push(Event::Finished(step)));
        proof {
            let after = self.trace@;
            assert(finishes_at(after, step, n));
            assert forall|s: StepId, k: int| starts_at(before, s, k) implies starts_at(
                after,
                s,
                k,
            ) by {}
            assert forall|s: StepId, k: int| finishes_at(before, s, k) implies finishes_at(
                after,
                s,
                k,
            ) by {}
            assert forall|s: StepId, k: int|
                k <= n + 1 implies started_before(after, s, k) == started_before(
                before,
                s,
                k,
            ) by {
                if started_before(after, s, k) {
                    let j = choose|j: int| j < k && #[trigger] starts_at(after, s, j);
                    assert(starts_at(before, s, j));
                }
                if started_before(before, s, k) {
                    let j = choose|j: int| j < k && #[trigger] starts_at(before, s, j);
                    assert(starts_at(after, s, j));
                }
            }
            assert forall|s: StepId, k: int|
                k <= n implies finished_before(after, s, k) == finished_before(before, s, k) by {
                if finished_before(after, s, k) {
                    let j = choose|j: int| j < k && #[trigger] finishes_at(after, s, j);
                    assert(finishes_at(before, s, j));
                }
                if finished_before(before, s, k) {
                    let j = choose|j: int| j < k && #[trigger] finishes_at(before, s, j);
                    assert(finishes_at(after, s, j));
                }
            }
            assert forall|s: StepId|
                finished_before(after, s, n + 1) == (finished_before(before, s, n) || s
                    == step) by {
                if finished_before(after, s, n + 1) {
                    let j = choose|j: int| j < n + 1 && #[trigger] finishes_at(after, s, j);
                    if j < n {
                        assert(finishes_at(before, s, j));
                    }
                }
                if finished_before(before, s, n) {
                    let j = choose|j: int| j < n && #[trigger] finishes_at(before, s, j);
                    assert(finishes_at(after, s, j));
                }
            }
            assert forall|s: StepId, k: int| #[trigger]
                finishes_at(after, s, k) implies started_before(after, s, k) by {
                if k < n {
                    assert(finishes_at(before, s, k));
                }
            }
            assert forall|s: StepId, d: StepId, k: int|
                #[trigger] starts_at(after, s, k) && #[trigger] edge(self.graph(), s, d)
                    && self.graph().dom().contains(d) implies finished_before(after, d, k) by {
                assert(starts_at(before, s, k));
            }
            assert(self.completed() =~= old(self).completed().insert(step));
        }
    }

    /// Whatever a running or completed step requires among the nodes is
    /// complete.
    pub proof fn lemma_predecessors_completed(&self, s: StepId, d: StepId)
        requires
            self.wf(),
            self.running().contains(s) || self.completed().contains(s),
            edge(self.graph(), s, d),
            self.graph().dom().contains(d),
        ensures
            self.completed().contains(d),
    {
        let t = self.trace();
        let n = t.len() as int;
        assert(started_before(t, s, n));
        let k = choose|k: int| k < n && #[trigger] starts_at(t, s, k);
        assert(finished_before(t, d, k));
        let j = choose|j: int| j < k && #[trigger] finishes_at(t, d, j);
        assert(finished_before(t, d, n));
        assert(started_before(t, d, j));
        let i = choose|i: int| i < j && #[trigger] starts_at(t, d, i);
        assert(started_before(t, d, n));
    }

    /// The steps are handed out in a topological order: where the graph is
    /// closed, each step is handed out after every step it depends on,
    /// directly or through others, was handed out and reported complete.
    pub proof fn lemma_started_in_topological_order(&self, s: StepId, d: StepId, k: int)
        requires
            self.wf(),
            closed(self.graph()),
            starts_at(self.trace(), s, k),
            depends(self.graph(), s, d),
        ensures
            exists|i: int, j: int|
                i < j < k && #[trigger] starts_at(self.trace(), d, i) && #[trigger] finishes_at(
                    self.trace(),
                    d,
                    j,
                ),
    {
        let p = choose|p: Seq<StepId>| #[trigger] crate::reach::chain(self.graph(), p, s, d) && p.len() >= 2;
        self.lemma_chain_order(p, s, d, k, p.len() - 1);
    }

    proof fn lemma_chain_order(&self, p: Seq<StepId>, s: StepId, d: StepId, k: int, upto: int)
        requires
            self.wf(),
            closed(self.graph()),
            starts_at(self.trace(), s, k),
            crate::reach::chain(self.graph(), p, s, d),
            1 <= upto < p.len(),
        ensures
            exists|i: int, j: int|
                i < j < k && #[trigger] starts_at(self.trace(), p[upto], i)
                    && #[trigger] finishes_at(self.trace(), p[upto], j),
        decreases upto,
    {
        let t = self.trace();
        let g = self.graph();
        assert(crate::reach::link(g, p, upto - 1));
        if upto == 1 {
            assert(edge(g, s, p[1]));
            assert(finished_before(t, p[1], k));
            let j = choose|j: int| j < k && #[trigger] finishes_at(t, p[1], j);
            assert(started_before(t, p[1], j));
            let i = choose|i: int| i < j && #[trigger] starts_at(t, p[1], i);
            assert(i < j < k && starts_at(t, p[upto], i) && finishes_at(t, p[upto], j));
        } else {
            self.lemma_chain_order(p, s, d, k, upto - 1);
            let (i0, j0) = choose|i: int, j: int|
                i < j < k && #[trigger] starts_at(t, p[upto - 1], i) && #[trigger] finishes_at(
                    t,
                    p[upto - 1],
                    j,
                );
            assert(edge(g, p[upto - 1], p[upto]));
            assert(finished_before(t, p[upto], i0));
            let j = choose|j: int| j < i0 && #[trigger] finishes_at(t, p[upto], j);
            assert(started_before(t, p[upto], j));
            let i = choose|i: int| i < j && #[trigger] starts_at(t, p[upto], i);
            assert(i < j < k && starts_at(t, p[upto], i) && finishes_at(t, p[upto], j));
        }
    }
}

} // verus!
