//! A test for cycles: a closed graph is free of cycles exactly when all of
//! its steps can be scheduled one after the other.

use crate::depgraph::IdGraph;
use crate::parallelize::{started_before, starts_at, Parallelizer};
use crate::reach::{acyclic, chain, closed, depends, edge, link, DepMap};
use crate::step::StepId;
use vstd::prelude::*;
use vstd::set_lib::lemma_len_subset;

verus! {

/// A step that depends on itself is never handed out.
proof fn lemma_cycle_never_starts(p: Parallelizer, s: StepId, k: int)
    requires
        p.wf(),
        closed(p.graph()),
        depends(p.graph(), s, s),
    ensures
        !starts_at(p.trace(), s, k),
    decreases k,
{
    if starts_at(p.trace(), s, k) {
        p.lemma_started_in_topological_order(s, s, k);
        let (i, j) = choose|i: int, j: int|
            i < j < k && #[trigger] starts_at(p.trace(), s, i)
                && #[trigger] crate::parallelize::finishes_at(p.trace(), s, j);
        lemma_cycle_never_starts(p, s, i);
    }
}

/// Some member of `inside` that `x` directly requires.
spec fn next_inside(g: DepMap, inside: Set<StepId>, x: StepId) -> StepId {
    choose|d: StepId| #[trigger] edge(g, x, d) && inside.contains(d)
}

/// The walk of `n` edges from `start` that always moves on to a member of
/// `inside`.
spec fn walk(g: DepMap, inside: Set<StepId>, start: StepId, n: nat) -> Seq<StepId>
    decreases n,
{
    if n == 0 {
        seq![start]
    } else {
        let before = walk(g, inside, start, (n - 1) as nat);
        before.push(next_inside(g, inside, before.last()))
    }
}

proof fn lemma_walk(g: DepMap, inside: Set<StepId>, start: StepId, n: nat)
    requires
        inside.contains(start),
        forall|x: StepId|
            inside.contains(x) ==> exists|d: StepId| #[trigger] edge(g, x, d) && inside.contains(d),
    ensures
        walk(g, inside, start, n).len() == n + 1,
        forall|i: int| 0 <= i <= n ==> inside.contains(#[trigger] walk(g, inside, start, n)[i]),
        forall|i: int| 0 <= i < n ==> #[trigger] link(g, walk(g, inside, start, n), i),
    decreases n,
{
    if n > 0 {
        let before = walk(g, inside, start, (n - 1) as nat);
        lemma_walk(g, inside, start, (n - 1) as nat);
        let w = walk(g, inside, start, n);
        let x = before.last();
        assert(inside.contains(before[n - 1]));
        let d = next_inside(g, inside, x);
        assert(edge(g, x, d) && inside.contains(d));
        assert forall|i: int| 0 <= i < n implies #[trigger] link(g, w, i) by {
            if i < n - 1 {
                assert(link(g, before, i));
            }
        }
        assert forall|i: int| 0 <= i <= n implies inside.contains(#[trigger] w[i]) by {
            if i < n {
                assert(w[i] == before[i]);
            }
        }
    }
}

/// Where every member of a finite non-empty set requires a member of the
/// set, some member depends on itself.
proof fn lemma_trapped_set_has_cycle(g: DepMap, inside: Set<StepId>, start: StepId)
    requires
        inside.finite(),
        inside.contains(start),
        forall|x: StepId|
            inside.contains(x) ==> exists|d: StepId| #[trigger] edge(g, x, d) && inside.contains(d),
    ensures
        !acyclic(g),
{
    let n = inside.len();
    let w = walk(g, inside, start, n);
    lemma_walk(g, inside, start, n);
    if w.no_duplicates() {
        w.unique_seq_to_set();
        assert(w.to_set().subset_of(inside)) by {
            assert forall|x: StepId| w.to_set().contains(x) implies inside.contains(x) by {
                let i = choose|i: int| 0 <= i < w.len() && w[i] == x;
                assert(inside.contains(w[i]));
            }
        }
        lemma_len_subset(w.to_set(), inside);
    } else {
        let (i, j) = choose|i: int, j: int|
            0 <= i < w.len() && 0 <= j < w.len() && i != j && w[i] == w[j];
        let lo = if i < j {
            i
        } else {
            j
        };
        let hi = if i < j {
            j
        } else {
            i
        };
        let x = w[lo];
        let around = w.subrange(lo, hi + 1);
        assert forall|k: int| 0 <= k < around.len() - 1 implies #[trigger] link(g, around, k) by {
            assert(link(g, w, lo + k));
        }
        assert(chain(g, around, x, x));
        assert(depends(g, x, x));
    }
}

/// Whether the graph is free of cycles.
pub fn is_acyclic(graph: &IdGraph) -> (ok: bool)
    requires
        graph.wf(),
        closed(graph@),
    ensures
        ok == acyclic(graph@),
{
    let mut scheduler = Parallelizer::from_graph(graph.clone());
    let ghost g = graph@;
    loop
        invariant
            scheduler.wf(),
            scheduler.graph() == g,
            g == graph@,
            closed(g),
            scheduler.running() == Set::<StepId>::empty(),
        decreases scheduler.pending().len(),
    {
        proof {
            scheduler.lemma_counts();
        }
        let ghost before = scheduler;
        match scheduler.get_task() {
            Some(id) => {
                scheduler.mark_complete(id);
                assert(scheduler.running() =~= Set::<StepId>::empty());
            },
            None => {
                let done = scheduler.is_done();
                proof {
                    if done {
                        assert forall|s: StepId| !#[trigger] depends(g, s, s) by {
                            if depends(g, s, s) {
                                let m = crate::reach::lemma_depends_first(g, s, s);
                                assert(scheduler.completed().contains(s));
                                let n = scheduler.trace().len() as int;
                                assert(started_before(scheduler.trace(), s, n));
                                let k = choose|k: int|
                                    k < n && #[trigger] starts_at(scheduler.trace(), s, k);
                                lemma_cycle_never_starts(scheduler, s, k);
                            }
                        }
                    } else {
                        let inside = scheduler.pending();
                        vstd::set_lib::lemma_set_empty_equivalency_len(inside);
                        let start = choose|x: StepId| inside.contains(x);
                        assert forall|x: StepId| inside.contains(x) implies exists|d: StepId| #[trigger]
                            edge(g, x, d) && inside.contains(d) by {
                            assert(!before.ready(x));
                            let d = choose|d: StepId| #[trigger]
                                edge(before.graph(), x, d) && !(!before.pending().contains(d)
                                    && !before.running().contains(d));
                            assert(edge(g, x, d) && inside.contains(d));
                        }
                        lemma_trapped_set_has_cycle(g, inside, start);
                    }
                }
                return done;
            },
        }
    }
}

} // verus!
