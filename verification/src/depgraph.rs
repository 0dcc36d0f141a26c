//! The dependency graph of step identifiers: construction from steps, node
//! and edge queries, sinks, and focusing on one target.

use crate::reach::{
    chain, closed, cone, edge, finite_graph, focused, lemma_ancestors_in_dom, lemma_depends_trans,
    lemma_edge_depends, link, DepMap,
};
use crate::step::{lemma_within_step, step_ids, within, IdSet, Step, StepId};
use vstd::prelude::*;
use vstd::set_lib::lemma_len_subset;

pub use crate::dot::to_dot;
pub use crate::linearize::{is_prefix_of, linearize, paths_from, step_index_by_id};

verus! {

/// The dependency relation that a list of steps describes. Where an
/// identifier occurs twice, the later step decides.
pub open spec fn graph_of(steps: Seq<Step>) -> DepMap
    decreases steps.len(),
{
    if steps.len() == 0 {
        Map::empty()
    } else {
        graph_of(steps.drop_last()).insert(steps.last().id, steps.last().requires@)
    }
}

/// Every step's set of predecessors is well formed.
pub open spec fn steps_wf(steps: Seq<Step>) -> bool {
    forall|i: int| 0 <= i < steps.len() ==> (#[trigger] steps[i]).requires.wf()
}

/// No identifier is used by two steps.
pub open spec fn distinct_ids(steps: Seq<Step>) -> bool {
    forall|i: int, j: int|
        0 <= i < j < steps.len() ==> (#[trigger] steps[i]).id != (#[trigger] steps[j]).id
}

/// The nodes of `graph_of` are the identifiers of the steps.
pub proof fn lemma_graph_of_dom(steps: Seq<Step>)
    ensures
        graph_of(steps).dom().finite(),
        forall|id: StepId|
            graph_of(steps).dom().contains(id) <==> exists|i: int|
                0 <= i < steps.len() && (#[trigger] steps[i]).id == id,
    decreases steps.len(),
{
    if steps.len() > 0 {
        let front = steps.drop_last();
        lemma_graph_of_dom(front);
        assert forall|id: StepId|
            graph_of(steps).dom().contains(id) <==> exists|i: int|
                0 <= i < steps.len() && (#[trigger] steps[i]).id == id by {
            if graph_of(steps).dom().contains(id) {
                if id == steps.last().id {
                    assert(steps[steps.len() - 1].id == id);
                } else {
                    let i = choose|i: int| 0 <= i < front.len() && (#[trigger] front[i]).id == id;
                    assert(steps[i].id == id);
                }
            }
            if exists|i: int| 0 <= i < steps.len() && (#[trigger] steps[i]).id == id {
                let i = choose|i: int| 0 <= i < steps.len() && (#[trigger] steps[i]).id == id;
                if i < front.len() {
                    assert(front[i].id == id);
                }
            }
        }
    }
}

/// With distinct identifiers, each step's node carries that step's
/// predecessors.
pub proof fn lemma_graph_of_entry(steps: Seq<Step>, i: int)
    requires
        distinct_ids(steps),
        0 <= i < steps.len(),
    ensures
        graph_of(steps).dom().contains(steps[i].id),
        graph_of(steps)[steps[i].id] == steps[i].requires@,
    decreases steps.len(),
{
    let front = steps.drop_last();
    if i < steps.len() - 1 {
        assert(distinct_ids(front)) by {
            assert forall|a: int, b: int| 0 <= a < b < front.len() implies (#[trigger] front[a]).id
                != (#[trigger] front[b]).id by {
                assert(steps[a].id != steps[b].id);
            }
        }
        lemma_graph_of_entry(front, i);
        assert(front[i] == steps[i]);
        assert(steps[i].id != steps[steps.len() - 1].id);
    }
}

/// With well-formed steps the relation is finite.
pub proof fn lemma_graph_of_finite(steps: Seq<Step>)
    requires
        steps_wf(steps),
    ensures
        finite_graph(graph_of(steps)),
    decreases steps.len(),
{
    lemma_graph_of_dom(steps);
    if steps.len() > 0 {
        let front = steps.drop_last();
        assert(steps_wf(front)) by {
            assert forall|i: int| 0 <= i < front.len() implies (#[trigger] front[i]).requires.wf() by {
                assert(steps[i].requires.wf());
            }
        }
        lemma_graph_of_finite(front);
        assert(steps[steps.len() - 1].requires.wf());
        steps.last().requires.lemma_order();
    }
}

/// The nodes that no node requires.
pub open spec fn sinks(g: DepMap) -> Set<StepId> {
    Set::new(|n: StepId| g.dom().contains(n) && forall|m: StepId| !#[trigger] edge(g, m, n))
}

/// Adjacency representation of the dependency relation.
#[derive(Debug)]
pub struct IdGraph {
    keys: Vec<StepId>,
    deps: Vec<IdSet>,
}

impl View for IdGraph {
    type V = DepMap;

    closed spec fn view(&self) -> DepMap {
        Map::new(
            |k: StepId| self.keys@.contains(k),
            |k: StepId| self.deps@[self.keys@.index_of(k)]@,
        )
    }
}

impl Clone for IdGraph {
    fn clone(&self) -> (copy: Self)
        ensures
            copy.wf() == self.wf(),
            self.wf() ==> copy@ == self@,
            copy.node_order() == self.node_order(),
    {
        let mut deps: Vec<IdSet> = Vec::new();
        let mut i: usize = 0;
        while i < self.deps.len()
            invariant
                i <= self.deps@.len(),
                deps@.len() == i,
                forall|k: int|
                    0 <= k < i ==> (#[trigger] deps@[k]).wf() == self.deps@[k].wf() && deps@[k]@
                        == self.deps@[k]@,
            decreases self.deps@.len() - i,
        {
            let copy = self.deps[i].clone();
            deps.push(copy);
            i += 1;
        }
        let copy = IdGraph { keys: self.keys.clone(), deps };
        proof {
            assert(copy.keys@ == self.keys@);
            if self.wf() {
                assert(copy@ =~= self@);
            }
            if copy.wf() {
                assert forall|k: int| 0 <= k < self.deps@.len() implies (
                #[trigger] self.deps@[k]).wf() by {
                    assert(copy.deps@[k].wf());
                }
            }
        }
        copy
    }
}

impl IdGraph {
    /// Keys are distinct and each has a well-formed set of predecessors.
    pub closed spec fn wf(&self) -> bool {
        &&& self.keys@.len() == self.deps@.len()
        &&& self.keys@.no_duplicates()
        &&& forall|i: int| 0 <= i < self.deps@.len() ==> (#[trigger] self.deps@[i]).wf()
    }

    /// The nodes in the order in which they were entered.
    pub closed spec fn node_order(&self) -> Seq<StepId> {
        self.keys@
    }

    proof fn lemma_slot(&self, i: int)
        requires
            self.wf(),
            0 <= i < self.keys@.len(),
        ensures
            self.keys@.index_of(self.keys@[i]) == i,
            self@.dom().contains(self.keys@[i]),
            self@[self.keys@[i]] == self.deps@[i]@,
            self.deps@[i].wf(),
    {
        let k = self.keys@[i];
        assert(self.keys@.contains(k));
        let j = self.keys@.index_of(k);
        assert(0 <= j < self.keys@.len() && self.keys@[j] == k);
    }

    /// The relation is finite, and the node order lists its nodes once each.
    pub proof fn lemma_finite(&self)
        requires
            self.wf(),
        ensures
            finite_graph(self@),
            self.node_order().no_duplicates(),
            self.node_order().to_set() == self@.dom(),
            self.node_order().len() == self@.dom().len(),
    {
        assert(self@.dom() =~= self.keys@.to_set());
        self.keys@.unique_seq_to_set();
        assert forall|s: StepId| self@.dom().contains(s) implies (#[trigger] self@[s]).finite() by {
            let j = self.keys@.index_of(s);
            self.lemma_slot(j);
            self.deps@[j].lemma_order();
        }
    }

    /// The graph without nodes.
    pub fn new() -> (graph: Self)
        ensures
            graph.wf(),
            graph@ == Map::<StepId, Set<StepId>>::empty(),
            graph.node_order() == Seq::<StepId>::empty(),
    {
        let graph = IdGraph { keys: Vec::new(), deps: Vec::new() };
        assert(graph@ =~= Map::<StepId, Set<StepId>>::empty());
        graph
    }

    fn slot_of(&self, key: StepId) -> (found: Option<usize>)
        requires
            self.wf(),
        ensures
            match found {
                Some(index) => index < self.keys@.len() && self.keys@[index as int] == key
                    && self@.dom().contains(key),
                None => !self@.dom().contains(key),
            },
    {
        let mut index: usize = 0;
        while index < self.keys.len()
            invariant
                index <= self.keys@.len(),
                forall|k: int| 0 <= k < index ==> self.keys@[k] != key,
            decreases self.keys@.len() - index,
        {
            if self.keys[index] == key {
                assert(self.keys@.contains(key));
                return Some(index);
            }
            index += 1;
        }
        None
    }

    /// Enters a node with its predecessors, replacing an earlier entry of
    /// the same node.
    pub fn set(&mut self, key: StepId, deps: IdSet)
        requires
            old(self).wf(),
            deps.wf(),
        ensures
            final(self).wf(),
            final(self)@ == old(self)@.insert(key, deps@),
            final(self).node_order() == if old(self)@.dom().contains(key) {
                old(self).node_order()
            } else {
                old(self).node_order().push(key)
            },
    {
        let ghost before = *self;
        let ghost members = deps@;
        match self.slot_of(key) {
            Some(index) => {
                self.deps.set(index, deps);
                proof {
                    assert forall|k: StepId| self@.dom().contains(k) implies #[trigger] self@[k]
                        == before@.insert(key, members)[k] by {
                        let j = self.keys@.index_of(k);
                        before.lemma_slot(j);
                    }
                    assert(self@ =~= before@.insert(key, members));
                }
            },
            None => {
                self.keys.push(key);
                self.deps.push(deps);
                proof {
                    let n = before.keys@.len() as int;
                    assert forall|i: int, j: int| 0 <= i < j < self.keys@.len() implies self.keys@[i]
                        != self.keys@[j] by {
                        if j == n {
                            assert(before.keys@.contains(before.keys@[i]));
                        } else {
                            assert(before.keys@[i] != before.keys@[j]);
                        }
                    }
                    assert(self.keys@[n] == key);
                    assert forall|k: StepId| self.keys@.contains(k) <==> (before.keys@.contains(k)
                        || k == key) by {
                        if self.keys@.contains(k) {
                            let j = choose|j: int| 0 <= j < self.keys@.len() && self.keys@[j] == k;
                            if j < n {
                                assert(before.keys@[j] == k);
                            }
                        }
                        if before.keys@.contains(k) {
                            let j = choose|j: int| 0 <= j < n && before.keys@[j] == k;
                            assert(self.keys@[j] == k);
                        }
                    }
                    assert forall|i: int| 0 <= i < self.deps@.len() implies (
                    #[trigger] self.deps@[i]).wf() by {
                        if i < n {
                            assert(before.deps@[i].wf());
                        }
                    }
                    assert forall|k: StepId| self@.dom().contains(k) implies #[trigger] self@[k]
                        == before@.insert(key, members)[k] by {
                        let j = self.keys@.index_of(k);
                        self.lemma_slot(j);
                        if j < n {
                            before.lemma_slot(j);
                        }
                    }
                    assert(self@ =~= before@.insert(key, members));
                }
            },
        }
    }

    /// The graph of a list of steps. Where the steps have distinct
    /// identifiers, the nodes are entered in the order of the steps.
    pub fn from_steps(steps: &[Step]) -> (graph: Self)
        requires
            steps_wf(steps@),
        ensures
            graph.wf(),
            graph@ == graph_of(steps@),
            distinct_ids(steps@) ==> graph.node_order() == step_ids(steps@),
    {
        let mut graph = IdGraph::new();
        let mut i: usize = 0;
        while i < steps.len()
            invariant
                i <= steps@.len(),
                steps_wf(steps@),
                graph.wf(),
                graph@ == graph_of(steps@.subrange(0, i as int)),
                distinct_ids(steps@) ==> graph.node_order() == step_ids(steps@).take(i as int),
            decreases steps@.len() - i,
        {
            let preds = steps[i].requires.clone();
            proof {
                assert(steps@[i as int].requires.wf());
                steps@[i as int].requires.lemma_order();
                let upto = steps@.subrange(0, i + 1);
                assert(upto.drop_last() =~= steps@.subrange(0, i as int));
                assert(upto.last() == steps@[i as int]);
                if distinct_ids(steps@) {
                    let sofar = steps@.subrange(0, i as int);
                    lemma_graph_of_dom(sofar);
                    if graph_of(sofar).dom().contains(steps@[i as int].id) {
                        let k = choose|k: int|
                            0 <= k < sofar.len() && (#[trigger] sofar[k]).id == steps@[i as int].id;
                        assert(sofar[k] == steps@[k]);
                        assert(steps@[k].id != steps@[i as int].id);
                    }
                    assert(step_ids(steps@).take(i + 1) =~= step_ids(steps@).take(i as int).push(
                        steps@[i as int].id,
                    ));
                }
            }
            graph.set(steps[i].id, preds);
            i += 1;
        }
        assert(steps@.subrange(0, i as int) =~= steps@);
        assert(step_ids(steps@).take(i as int) =~= step_ids(steps@));
        graph
    }

    /// The set of nodes.
    pub fn nodes(&self) -> (nodes: IdSet)
        requires
            self.wf(),
        ensures
            nodes.wf(),
            nodes@ == self@.dom(),
            nodes.order() == self.node_order(),
    {
        let nodes = IdSet::from_distinct(self.keys.clone());
        assert(nodes@ =~= self@.dom());
        nodes
    }

    /// Whether a step is a node of the graph.
    pub fn contains(&self, step: StepId) -> (found: bool)
        requires
            self.wf(),
        ensures
            found == self@.dom().contains(step),
    {
        self.slot_of(step).is_some()
    }

    /// The direct predecessors of a node.
    pub fn dependencies_of(&self, step: StepId) -> (deps: &IdSet)
        requires
            self.wf(),
            self@.dom().contains(step),
        ensures
            deps.wf(),
            deps@ == self@[step],
    {
        let slot = self.slot_of(step);
        let index = slot.unwrap();
        proof {
            self.lemma_slot(index as int);
        }
        &self.deps[index]
    }

    /// Whether every predecessor named in the graph is itself a node.
    pub fn is_closed(&self) -> (ok: bool)
        requires
            self.wf(),
        ensures
            ok == closed(self@),
    {
        let mut i: usize = 0;
        while i < self.keys.len()
            invariant
                self.wf(),
                i <= self.keys@.len(),
                forall|k: int, r: StepId|
                    0 <= k < i && #[trigger] self.deps@[k]@.contains(r) ==> self@.dom().contains(r),
            decreases self.keys@.len() - i,
        {
            let deps = &self.deps[i];
            proof {
                self.lemma_slot(i as int);
                deps.lemma_order();
            }
            let mut j: usize = 0;
            while j < deps.len()
                invariant
                    self.wf(),
                    deps.wf(),
                    i < self.keys@.len(),
                    *deps == self.deps@[i as int],
                    j <= deps.order().len(),
                    forall|l: int| 0 <= l < j ==> self@.dom().contains(#[trigger] deps.order()[l]),
                decreases deps.order().len() - j,
            {
                let r = deps.get(j);
                if !self.contains(r) {
                    proof {
                        self.lemma_slot(i as int);
                        assert(edge(self@, self.keys@[i as int], r));
                    }
                    return false;
                }
                j += 1;
            }
            proof {
                deps.lemma_order();
            }
            i += 1;
        }
        proof {
            assert forall|s: StepId, r: StepId| #[trigger] edge(self@, s, r) implies self@.dom().contains(
                r,
            ) by {
                let k = self.keys@.index_of(s);
                self.lemma_slot(k);
                assert(self.deps@[k]@.contains(r));
            }
        }
        true
    }

    /// The nodes that no node requires.
    pub fn targets(&self) -> (found: IdSet)
        requires
            self.wf(),
        ensures
            found.wf(),
            found@ == sinks(self@),
    {
        let mut found = self.nodes();
        let mut i: usize = 0;
        while i < self.keys.len()
            invariant
                self.wf(),
                found.wf(),
                i <= self.keys@.len(),
                forall|n: StepId|
                    found@.contains(n) <==> (self@.dom().contains(n) && forall|k: int|
                        0 <= k < i ==> !(#[trigger] self.deps@[k])@.contains(n)),
            decreases self.keys@.len() - i,
        {
            let deps = &self.deps[i];
            proof {
                self.lemma_slot(i as int);
                deps.lemma_order();
            }
            let mut j: usize = 0;
            while j < deps.len()
                invariant
                    self.wf(),
                    found.wf(),
                    deps.wf(),
                    i < self.keys@.len(),
                    *deps == self.deps@[i as int],
                    j <= deps.order().len(),
                    forall|n: StepId|
                        found@.contains(n) <==> (self@.dom().contains(n) && (forall|k: int|
                            0 <= k < i ==> !(#[trigger] self.deps@[k])@.contains(n)) && forall|
                            l: int,
                        |
                            0 <= l < j ==> n != #[trigger] deps.order()[l]),
                decreases deps.order().len() - j,
            {
                let r = deps.get(j);
                found.remove(r);
                j += 1;
            }
            proof {
                deps.lemma_order();
                assert forall|n: StepId|
                    found@.contains(n) <==> (self@.dom().contains(n) && forall|k: int|
                        0 <= k < i + 1 ==> !(#[trigger] self.deps@[k])@.contains(n)) by {
                    if deps@.contains(n) {
                        assert(deps.order().contains(n));
                        let l = choose|l: int| 0 <= l < deps.order().len() && deps.order()[l] == n;
                        assert(n == deps.order()[l]);
                    }
                    if found@.contains(n) {
                        assert forall|k: int| 0 <= k < i + 1 implies !(
                        #[trigger] self.deps@[k])@.contains(n) by {
                            if k == i {
                            }
                        }
                    }
                }
            }
            i += 1;
        }
        proof {
            assert forall|n: StepId| found@.contains(n) <==> sinks(self@).contains(n) by {
                if found@.contains(n) {
                    assert forall|m: StepId| !#[trigger] edge(self@, m, n) by {
                        if edge(self@, m, n) {
                            let k = self.keys@.index_of(m);
                            self.lemma_slot(k);
                            assert(self.deps@[k]@.contains(n));
                        }
                    }
                }
                if sinks(self@).contains(n) {
                    assert forall|k: int| 0 <= k < i implies !(#[trigger] self.deps@[k])@.contains(
                        n,
                    ) by {
                        self.lemma_slot(k);
                        assert(!edge(self@, self.keys@[k], n));
                    }
                }
            }
            assert(found@ =~= sinks(self@));
        }
        found
    }

    /// The graph restricted to a node and everything it requires; the
    /// nodes that stay keep their order.
    pub fn focus(&self, target: StepId) -> (graph: Self)
        requires
            self.wf(),
            closed(self@),
            self@.dom().contains(target),
        ensures
            graph.wf(),
            graph@ == focused(self@, target),
            graph.node_order() == within(self.node_order(), cone(self@, target)),
    {
        let ghost g = self@;
        let mut seen = IdSet::new();
        seen.insert(target);
        let mut done: usize = 0;
        proof {
            self.lemma_finite();
            lemma_ancestors_in_dom(g, target);
        }
        while done < seen.len()
            invariant
                self.wf(),
                closed(g),
                g == self@,
                g.dom().finite(),
                seen.wf(),
                done <= seen.order().len(),
                seen@.contains(target),
                seen@.subset_of(cone(g, target)),
                cone(g, target).subset_of(g.dom()),
                forall|k: int, r: StepId|
                    0 <= k < done && #[trigger] edge(g, seen.order()[k], r) ==> seen@.contains(r),
            decreases g.dom().len() - done,
        {
            let node = seen.get(done);
            proof {
                seen.lemma_order();
                lemma_len_subset(seen@, g.dom());
            }
            let deps = self.dependencies_of(node);
            let mut j: usize = 0;
            while j < deps.len()
                invariant
                    self.wf(),
                    closed(g),
                    g == self@,
                    seen.wf(),
                    deps.wf(),
                    deps@ == g[node],
                    g.dom().contains(node),
                    cone(g, target).contains(node),
                    done < seen.order().len(),
                    seen.order()[done as int] == node,
                    seen@.contains(target),
                    seen@.subset_of(cone(g, target)),
                    j <= deps.order().len(),
                    forall|k: int, r: StepId|
                        0 <= k < done && #[trigger] edge(g, seen.order()[k], r) ==> seen@.contains(
                            r,
                        ),
                    forall|l: int| 0 <= l < j ==> seen@.contains(#[trigger] deps.order()[l]),
                decreases deps.order().len() - j,
            {
                let r = deps.get(j);
                let ghost before = seen;
                proof {
                    assert(edge(g, node, r));
                    lemma_edge_depends(g, node, r);
                    if node != target {
                        lemma_depends_trans(g, target, node, r);
                    }
                    assert(cone(g, target).contains(r));
                }
                seen.insert(r);
                proof {
                    assert forall|k: int, x: StepId|
                        0 <= k < done && #[trigger] edge(g, seen.order()[k], x) implies seen@.contains(
                        x,
                    ) by {
                        assert(seen.order()[k] == before.order()[k]);
                    }
                }
                j += 1;
            }
            proof {
                deps.lemma_order();
                assert forall|k: int, r: StepId|
                    0 <= k < done + 1 && #[trigger] edge(g, seen.order()[k], r) implies seen@.contains(
                    r,
                ) by {
                    if k == done {
                        assert(deps@.contains(r));
                        assert(deps.order().contains(r));
                    }
                }
            }
            done += 1;
        }
        proof {
            seen.lemma_order();
            assert forall|a: StepId, b: StepId| seen@.contains(a) && #[trigger] edge(
                g,
                a,
                b,
            ) implies seen@.contains(b) by {
                assert(seen.order().contains(a));
                let k = choose|k: int| 0 <= k < seen.order().len() && seen.order()[k] == a;
                assert(edge(g, seen.order()[k], b));
            }
            assert forall|x: StepId| cone(g, target).contains(x) implies seen@.contains(x) by {
                if x != target {
                    let p = choose|p: Seq<StepId>| #[trigger] chain(g, p, target, x) && p.len() >= 2;
                    lemma_chain_within(g, p, target, x, seen@, p.len() - 1);
                }
            }
            assert(seen@ =~= cone(g, target));
        }
        let mut graph = IdGraph::new();
        let mut i: usize = 0;
        proof {
            reveal(Seq::filter);
            assert(self.keys@.take(0) =~= Seq::<StepId>::empty());
        }
        while i < self.keys.len()
            invariant
                self.wf(),
                g == self@,
                graph.wf(),
                i <= self.keys@.len(),
                seen@ == cone(g, target),
                graph.node_order() == within(self.keys@.take(i as int), cone(g, target)),
                graph@ == g.restrict(
                    Set::new(
                        |x: StepId|
                            cone(g, target).contains(x) && exists|k: int|
                                0 <= k < i && self.keys@[k] == x,
                    ),
                ),
            decreases self.keys@.len() - i,
        {
            let key = self.keys[i];
            proof {
                self.lemma_slot(i as int);
                lemma_within_step(self.keys@, cone(g, target), i as int);
                if graph@.dom().contains(key) {
                    let k = choose|k: int| 0 <= k < i && self.keys@[k] == key;
                    assert(self.keys@[k] != self.keys@[i as int]);
                }
            }
            if seen.contains(key) {
                let deps = self.deps[i].clone();
                let ghost before = graph@;
                graph.set(key, deps);
                proof {
                    let upto = Set::new(
                        |x: StepId|
                            cone(g, target).contains(x) && exists|k: int|
                                0 <= k < i + 1 && self.keys@[k] == x,
                    );
                    assert forall|x: StepId| graph@.dom().contains(x) <==> g.restrict(
                        upto,
                    ).dom().contains(x) by {
                        if before.dom().contains(x) {
                            let k = choose|k: int| 0 <= k < i && self.keys@[k] == x;
                            assert(0 <= k < i + 1 && self.keys@[k] == x);
                        }
                        if x == key {
                            assert(0 <= i < i + 1 && self.keys@[i as int] == x);
                        }
                        if upto.contains(x) && x != key {
                            let k = choose|k: int| 0 <= k < i + 1 && self.keys@[k] == x;
                            assert(0 <= k < i && self.keys@[k] == x);
                        }
                    }
                    assert(graph@ =~= g.restrict(upto));
                }
            } else {
                proof {
                    let before = Set::new(
                        |x: StepId|
                            cone(g, target).contains(x) && exists|k: int|
                                0 <= k < i && self.keys@[k] == x,
                    );
                    let upto = Set::new(
                        |x: StepId|
                            cone(g, target).contains(x) && exists|k: int|
                                0 <= k < i + 1 && self.keys@[k] == x,
                    );
                    assert forall|x: StepId| before.contains(x) <==> upto.contains(x) by {
                        if before.contains(x) {
                            let k = choose|k: int| 0 <= k < i && self.keys@[k] == x;
                            assert(0 <= k < i + 1 && self.keys@[k] == x);
                        }
                        if upto.contains(x) {
                            let k = choose|k: int| 0 <= k < i + 1 && self.keys@[k] == x;
                            assert(0 <= k < i && self.keys@[k] == x);
                        }
                    }
                    assert(before =~= upto);
                }
            }
            i += 1;
        }
        proof {
            let all = Set::new(
                |x: StepId|
                    cone(g, target).contains(x) && exists|k: int|
                        0 <= k < i && self.keys@[k] == x,
            );
            assert forall|x: StepId| g.restrict(all).dom().contains(x) <==> focused(
                g,
                target,
            ).dom().contains(x) by {
                if g.dom().contains(x) && cone(g, target).contains(x) {
                    let k = self.keys@.index_of(x);
                    self.lemma_slot(k);
                    assert(0 <= k < i && self.keys@[k] == x);
                }
            }
            assert(graph@ =~= focused(g, target));
            assert(self.keys@.take(i as int) =~= self.keys@);
        }
        graph
    }
}

/// A chain that starts inside a set closed under edges stays inside it.
proof fn lemma_chain_within(
    g: DepMap,
    p: Seq<StepId>,
    s: StepId,
    r: StepId,
    inside: Set<StepId>,
    upto: int,
)
    requires
        chain(g, p, s, r),
        inside.contains(s),
        forall|a: StepId, b: StepId| inside.contains(a) && #[trigger] edge(g, a, b) ==> inside.contains(b),
        0 <= upto < p.len(),
    ensures
        inside.contains(p[upto]),
    decreases upto,
{
    if upto > 0 {
        lemma_chain_within(g, p, s, r, inside, upto - 1);
        assert(link(g, p, upto - 1));
    }
}

} // verus!
