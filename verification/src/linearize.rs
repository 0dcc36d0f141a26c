//! Removal of redundant dependencies by enumeration of the paths that lead
//! from the roots of the graph to a step.

use crate::depgraph::{
    distinct_ids, graph_of, lemma_graph_of_dom, lemma_graph_of_entry, lemma_graph_of_finite,
    steps_wf,
};
use crate::reach::{
    acyclic, ancestors, chain, closed, depends, depends_indirectly, edge, finite_graph, kept,
    lemma_ancestors_shrink, lemma_depends_trans, lemma_edge_depends,
    lemma_reduction_leaves_no_shortcut, lemma_reduction_preserves_reachability, link, reduced,
    redundant, DepMap,
};
use crate::step::{IdSet, Step, StepId};
use vstd::prelude::*;

verus! {

/// The element at position `i + 1` of `p` directly requires the one at `i`.
pub open spec fn rises(g: DepMap, p: Seq<StepId>, i: int) -> bool {
    edge(g, p[i + 1], p[i])
}

/// `p` leads from a node without predecessors up to `cursor`: each element
/// is directly required by the next one.
pub open spec fn root_path(g: DepMap, p: Seq<StepId>, cursor: StepId) -> bool {
    &&& p.len() >= 1
    &&& p.last() == cursor
    &&& g.dom().contains(p[0])
    &&& g[p[0]] == Set::<StepId>::empty()
    &&& forall|i: int| 0 <= i < p.len() - 1 ==> #[trigger] rises(g, p, i)
}

/// The sequences that a vector of vectors holds.
pub open spec fn views(paths: Seq<Vec<StepId>>) -> Seq<Seq<StepId>> {
    Seq::new(paths.len(), |i: int| paths[i]@)
}

/// `p` is one of the listed sequences.
pub open spec fn listed(paths: Seq<Seq<StepId>>, p: Seq<StepId>) -> bool {
    exists|k: int| 0 <= k < paths.len() && #[trigger] paths[k] == p
}

/// No sequence is listed twice.
pub open spec fn all_differ(paths: Seq<Seq<StepId>>) -> bool {
    forall|a: int, b: int| 0 <= a < b < paths.len() ==> #[trigger] paths[a] != #[trigger] paths[b]
}

/// `paths` lists exactly the root paths to `cursor`, each once.
pub open spec fn lists_root_paths(g: DepMap, paths: Seq<Seq<StepId>>, cursor: StepId) -> bool {
    &&& all_differ(paths)
    &&& forall|k: int| 0 <= k < paths.len() ==> root_path(g, #[trigger] paths[k], cursor)
    &&& forall|p: Seq<StepId>| #[trigger] root_path(g, p, cursor) ==> listed(paths, p)
}

/// The path at position `a` is a prefix of a path at another position.
pub open spec fn shadowed(ps: Seq<Seq<StepId>>, a: int) -> bool {
    exists|b: int| 0 <= b < ps.len() && b != a && ps[a].is_prefix_of(#[trigger] ps[b])
}

/// The last elements of the shadowed paths among the first `n`.
pub open spec fn dropped(ps: Seq<Seq<StepId>>, n: int) -> Set<StepId> {
    Set::new(
        |p: StepId|
            exists|a: int| 0 <= a < n && #[trigger] shadowed(ps, a) && ps[a].len() > 0 && ps[a].last() == p,
    )
}

/// Each path without its last element.
pub open spec fn shortened(paths: Seq<Seq<StepId>>) -> Seq<Seq<StepId>> {
    Seq::new(paths.len(), |i: int| paths[i].drop_last())
}

/// Whether one slice starts another.
pub fn is_prefix_of(prefix: &[StepId], full: &[StepId]) -> (yes: bool)
    ensures
        yes == prefix@.is_prefix_of(full@),
{
    if prefix.len() > full.len() {
        return false;
    }
    let mut i: usize = 0;
    while i < prefix.len()
        invariant
            i <= prefix@.len() <= full@.len(),
            forall|k: int| 0 <= k < i ==> prefix@[k] == full@[k],
        decreases prefix@.len() - i,
    {
        if prefix[i] != full[i] {
            proof {
                if prefix@.is_prefix_of(full@) {
                    assert(full@.subrange(0, prefix@.len() as int)[i as int] == prefix@[i as int]);
                }
            }
            return false;
        }
        i += 1;
    }
    assert(prefix@ =~= full@.subrange(0, prefix@.len() as int));
    true
}

/// Position of the step with a given identifier.
pub fn step_index_by_id(steps: &[Step], cursor: StepId) -> (index: usize)
    requires
        graph_of(steps@).dom().contains(cursor),
    ensures
        index < steps@.len(),
        steps@[index as int].id == cursor,
        forall|k: int| 0 <= k < index ==> (#[trigger] steps@[k]).id != cursor,
{
    proof {
        lemma_graph_of_dom(steps@);
    }
    let mut i: usize = 0;
    while i < steps.len()
        invariant
            i <= steps@.len(),
            forall|k: int| 0 <= k < i ==> (#[trigger] steps@[k]).id != cursor,
            exists|k: int| 0 <= k < steps@.len() && (#[trigger] steps@[k]).id == cursor,
        decreases steps@.len() - i,
    {
        if steps[i].id == cursor {
            return i;
        }
        i += 1;
    }
    proof {
        let k = choose|k: int| 0 <= k < steps@.len() && (#[trigger] steps@[k]).id == cursor;
        assert(steps@[k].id != cursor);
    }
    0
}

/// Appends `cursor` to every path.
fn extend_each(paths: Vec<Vec<StepId>>, cursor: StepId) -> (longer: Vec<Vec<StepId>>)
    ensures
        longer@.len() == paths@.len(),
        forall|k: int| 0 <= k < paths@.len() ==> (#[trigger] longer@[k])@ == paths@[k]@.push(cursor),
{
    let mut longer: Vec<Vec<StepId>> = Vec::new();
    let mut k: usize = 0;
    while k < paths.len()
        invariant
            k <= paths@.len(),
            longer@.len() == k,
            forall|i: int| 0 <= i < k ==> (#[trigger] longer@[i])@ == paths@[i]@.push(cursor),
        decreases paths@.len() - k,
    {
        let mut path = paths[k].clone();
        path.push(cursor);
        longer.push(path);
        k += 1;
    }
    longer
}

/// Takes the last element off every path.
fn shorten_each(paths: Vec<Vec<StepId>>) -> (shorter: Vec<Vec<StepId>>)
    requires
        forall|k: int| 0 <= k < paths@.len() ==> (#[trigger] paths@[k])@.len() >= 1,
    ensures
        views(shorter@) == shortened(views(paths@)),
{
    let mut shorter: Vec<Vec<StepId>> = Vec::new();
    let mut k: usize = 0;
    while k < paths.len()
        invariant
            k <= paths@.len(),
            shorter@.len() == k,
            forall|i: int| 0 <= i < paths@.len() ==> (#[trigger] paths@[i])@.len() >= 1,
            forall|i: int| 0 <= i < k ==> (#[trigger] shorter@[i])@ == paths@[i]@.drop_last(),
        decreases paths@.len() - k,
    {
        let mut path = paths[k].clone();
        path.pop();
        shorter.push(path);
        k += 1;
    }
    assert(views(shorter@) =~= shortened(views(paths@)));
    shorter
}

/// The last element of a path that extends a root path is a new root path.
proof fn lemma_root_path_push(g: DepMap, p: Seq<StepId>, r: StepId, cursor: StepId)
    requires
        root_path(g, p, r),
        edge(g, cursor, r),
    ensures
        root_path(g, p.push(cursor), cursor),
{
    let q = p.push(cursor);
    assert forall|i: int| 0 <= i < q.len() - 1 implies #[trigger] rises(g, q, i) by {
        if i < p.len() - 1 {
            assert(rises(g, p, i));
        }
    }
}

/// A root path of two or more elements extends a root path to a direct
/// predecessor.
proof fn lemma_root_path_pop(g: DepMap, p: Seq<StepId>, cursor: StepId)
    requires
        root_path(g, p, cursor),
        p.len() >= 2,
    ensures
        root_path(g, p.drop_last(), p[p.len() - 2]),
        edge(g, cursor, p[p.len() - 2]),
        p.drop_last().push(cursor) == p,
{
    let q = p.drop_last();
    assert(rises(g, p, p.len() - 2));
    assert forall|i: int| 0 <= i < q.len() - 1 implies #[trigger] rises(g, q, i) by {
        assert(rises(g, p, i));
    }
    assert(q.push(cursor) =~= p);
}

/// A root path to a node with predecessors has two or more elements.
proof fn lemma_root_path_long(g: DepMap, p: Seq<StepId>, cursor: StepId, r: StepId)
    requires
        root_path(g, p, cursor),
        edge(g, cursor, r),
    ensures
        p.len() >= 2,
{
}

/// Every node of a finite closed acyclic relation is reached by a root path.
proof fn lemma_root_path_exists(g: DepMap, cursor: StepId) -> (p: Seq<StepId>)
    requires
        finite_graph(g),
        closed(g),
        acyclic(g),
        g.dom().contains(cursor),
    ensures
        root_path(g, p, cursor),
    decreases ancestors(g, cursor).len(),
{
    if g[cursor] =~= Set::<StepId>::empty() {
        let p = seq![cursor];
        assert forall|i: int| 0 <= i < p.len() - 1 implies #[trigger] rises(g, p, i) by {}
        p
    } else {
        let r = choose|r: StepId| g[cursor].contains(r);
        assert(edge(g, cursor, r));
        lemma_ancestors_shrink(g, cursor, r);
        let q = lemma_root_path_exists(g, r);
        lemma_root_path_push(g, q, r, cursor);
        q.push(cursor)
    }
}

/// A stretch of a rising path is a dependence of its upper end on its lower
/// end.
proof fn lemma_rise_depends(g: DepMap, p: Seq<StepId>, lo: int, hi: int)
    requires
        0 <= lo < hi < p.len(),
        forall|i: int| lo <= i < hi ==> #[trigger] rises(g, p, i),
    ensures
        depends(g, p[hi], p[lo]),
    decreases hi - lo,
{
    assert(rises(g, p, hi - 1));
    lemma_edge_depends(g, p[hi], p[hi - 1]);
    if hi - 1 > lo {
        lemma_rise_depends(g, p, lo, hi - 1);
        lemma_depends_trans(g, p[hi], p[hi - 1], p[lo]);
    }
}

/// A root path to `p` continues, along a dependence of `q` on `p`, to a
/// longer root path to `q`.
proof fn lemma_root_path_continue(g: DepMap, d0: Seq<StepId>, p: StepId, q: StepId) -> (d1: Seq<
    StepId,
>)
    requires
        root_path(g, d0, p),
        depends(g, q, p),
    ensures
        root_path(g, d1, q),
        d0.is_prefix_of(d1),
        d0.len() < d1.len(),
{
    let c = choose|c: Seq<StepId>| #[trigger] chain(g, c, q, p) && c.len() >= 2;
    let n = c.len() as int;
    let tail = Seq::new((n - 1) as nat, |i: int| c[n - 2 - i]);
    let d1 = d0 + tail;
    assert forall|i: int| 0 <= i < d1.len() - 1 implies #[trigger] rises(g, d1, i) by {
        if i < d0.len() - 1 {
            assert(rises(g, d0, i));
        } else {
            let t = i - d0.len() + 1;
            assert(link(g, c, n - 2 - t));
            assert(d1[i + 1] == c[n - 2 - t]);
            assert(d1[i] == c[n - 1 - t]);
        }
    }
    assert(d1[0] == d0[0]);
    assert(d0 =~= d1.subrange(0, d0.len() as int));
    d1
}

/// When the paths to the predecessors of `s` are listed, the predecessors
/// at the end of a shadowed path are exactly the redundant ones.
proof fn lemma_dropped_is_redundant(g: DepMap, s: StepId, full: Seq<Seq<StepId>>, p: StepId)
    requires
        finite_graph(g),
        closed(g),
        acyclic(g),
        g.dom().contains(s),
        g[s] != Set::<StepId>::empty(),
        lists_root_paths(g, full, s),
    ensures
        dropped(shortened(full), full.len() as int).contains(p) <==> (edge(g, s, p) && redundant(
            g,
            s,
            p,
        )),
{
    let ps = shortened(full);
    let some = choose|r: StepId| g[s].contains(r);
    assert(g[s].contains(some)) by {
        if forall|r: StepId| !g[s].contains(r) {
            assert(g[s] =~= Set::<StepId>::empty());
        }
    }
    assert(edge(g, s, some));
    if dropped(ps, full.len() as int).contains(p) {
        let a = choose|a: int|
            0 <= a < full.len() && #[trigger] shadowed(ps, a) && ps[a].len() > 0 && ps[a].last()
                == p;
        let b = choose|b: int| 0 <= b < ps.len() && b != a && ps[a].is_prefix_of(#[trigger] ps[b]);
        lemma_root_path_long(g, full[a], s, some);
        lemma_root_path_long(g, full[b], s, some);
        lemma_root_path_pop(g, full[a], s);
        lemma_root_path_pop(g, full[b], s);
        assert(ps[a] == full[a].drop_last());
        assert(ps[b] == full[b].drop_last());
        if ps[a].len() == ps[b].len() {
            assert(ps[a] =~= ps[b]);
            assert(full[a] == full[b]);
            if a < b {
                assert(full[a] != full[b]);
            } else {
                assert(full[b] != full[a]);
            }
        }
        let la = ps[a].len() as int;
        let lb = ps[b].len() as int;
        assert(ps[b].subrange(0, la)[la - 1] == ps[a][la - 1]);
        assert(ps[b][la - 1] == p);
        let q = ps[b][lb - 1];
        assert forall|i: int| la - 1 <= i < lb - 1 implies #[trigger] rises(g, ps[b], i) by {
            assert(ps[b][i] == full[b][i]);
            assert(ps[b][i + 1] == full[b][i + 1]);
            assert(rises(g, full[b], i));
        }
        lemma_rise_depends(g, ps[b], la - 1, lb - 1);
        assert(edge(g, s, q));
        assert(edge(g, s, p));
    }
    if edge(g, s, p) && redundant(g, s, p) {
        let q = choose|q: StepId| #[trigger] edge(g, s, q) && depends(g, q, p);
        let d0 = lemma_root_path_exists(g, p);
        let d1 = lemma_root_path_continue(g, d0, p, q);
        lemma_root_path_push(g, d0, p, s);
        lemma_root_path_push(g, d1, q, s);
        let f0 = d0.push(s);
        let f1 = d1.push(s);
        assert(listed(full, f0));
        assert(listed(full, f1));
        let a = choose|k: int| 0 <= k < full.len() && #[trigger] full[k] == f0;
        let b = choose|k: int| 0 <= k < full.len() && #[trigger] full[k] == f1;
        assert(ps[a] =~= d0);
        assert(ps[b] =~= d1);
        assert(a != b);
        assert(shadowed(ps, a));
    }
}

/// With at most one predecessor nothing is redundant.
proof fn lemma_single_kept(g: DepMap, s: StepId, preds: IdSet)
    requires
        acyclic(g),
        g.dom().contains(s),
        preds.wf(),
        preds@ == g[s],
        preds.order().len() <= 1,
    ensures
        kept(g, s) == g[s],
{
    preds.lemma_order();
    assert forall|p: StepId| g[s].contains(p) implies kept(g, s).contains(p) by {
        if redundant(g, s, p) {
            let q = choose|q: StepId| #[trigger] edge(g, s, q) && depends(g, q, p);
            assert(preds.order().contains(p));
            assert(preds.order().contains(q));
            let i = choose|i: int| 0 <= i < preds.order().len() && preds.order()[i] == p;
            let j = choose|j: int| 0 <= j < preds.order().len() && preds.order()[j] == q;
            assert(p == q);
        }
    }
    assert(kept(g, s) =~= g[s]);
}

/// All paths from a node without predecessors to `cursor`, each as the
/// list of the steps on it, `cursor` last.
pub fn paths_from(steps: &[Step], cursor: StepId) -> (paths: Vec<Vec<StepId>>)
    requires
        steps_wf(steps@),
        distinct_ids(steps@),
        closed(graph_of(steps@)),
        acyclic(graph_of(steps@)),
        graph_of(steps@).dom().contains(cursor),
    ensures
        lists_root_paths(graph_of(steps@), views(paths@), cursor),
    decreases ancestors(graph_of(steps@), cursor).len(),
{
    let ghost g = graph_of(steps@);
    let index = step_index_by_id(steps, cursor);
    let preds = &steps[index].requires;
    proof {
        lemma_graph_of_entry(steps@, index as int);
        lemma_graph_of_finite(steps@);
        preds.lemma_order();
    }
    if preds.is_empty() {
        let mut path: Vec<StepId> = Vec::new();
        path.push(cursor);
        let mut paths: Vec<Vec<StepId>> = Vec::new();
        paths.push(path);
        proof {
            let listing = views(paths@);
            assert(listing[0] =~= seq![cursor]);
            assert forall|i: int| 0 <= i < listing[0].len() - 1 implies #[trigger] rises(
                g,
                listing[0],
                i,
            ) by {}
            assert forall|p: Seq<StepId>| #[trigger] root_path(g, p, cursor) implies listed(
                listing,
                p,
            ) by {
                if p.len() >= 2 {
                    assert(rises(g, p, p.len() - 2));
                }
                assert(p =~= listing[0]);
            }
        }
        paths
    } else {
        let mut paths: Vec<Vec<StepId>> = Vec::new();
        let mut j: usize = 0;
        let ghost order = preds.order();
        while j < preds.len()
            invariant
                steps_wf(steps@),
                distinct_ids(steps@),
                closed(g),
                acyclic(g),
                finite_graph(g),
                g == graph_of(steps@),
                g.dom().contains(cursor),
                preds.wf(),
                preds@ == g[cursor],
                order == preds.order(),
                order.no_duplicates(),
                j <= order.len(),
                all_differ(views(paths@)),
                forall|k: int|
                    0 <= k < paths@.len() ==> root_path(g, #[trigger] views(paths@)[k], cursor)
                        && views(paths@)[k].len() >= 2 && order.subrange(0, j as int).contains(
                        views(paths@)[k][views(paths@)[k].len() - 2],
                    ),
                forall|p: Seq<StepId>|
                    #[trigger] root_path(g, p, cursor) && p.len() >= 2 && order.subrange(
                        0,
                        j as int,
                    ).contains(p[p.len() - 2]) ==> listed(views(paths@), p),
            decreases order.len() - j,
        {
            let r = preds.get(j);
            proof {
                assert(edge(g, cursor, r));
                lemma_ancestors_shrink(g, cursor, r);
            }
            let below = paths_from(steps, r);
            let mut longer = extend_each(below, cursor);
            let ghost before = views(paths@);
            let ghost added = views(longer@);
            let ghost sub = views(below@);
            paths.append(&mut longer);
            proof {
                let after = views(paths@);
                assert(after =~= before + added);
                assert forall|k: int| 0 <= k < added.len() implies #[trigger] added[k] == sub[k].push(
                    cursor,
                ) by {}
                let seen = order.subrange(0, j as int);
                let seen_next = order.subrange(0, j + 1);
                assert forall|x: StepId| seen_next.contains(x) <==> (seen.contains(x) || x == r) by {
                    if seen_next.contains(x) {
                        let i = choose|i: int| 0 <= i < seen_next.len() && seen_next[i] == x;
                        if i < j {
                            assert(seen[i] == x);
                        }
                    }
                    if seen.contains(x) {
                        let i = choose|i: int| 0 <= i < seen.len() && seen[i] == x;
                        assert(seen_next[i] == x);
                    }
                    assert(seen_next[j as int] == r);
                }
                assert(!seen.contains(r)) by {
                    if seen.contains(r) {
                        let i = choose|i: int| 0 <= i < seen.len() && seen[i] == r;
                        assert(order[i] == order[j as int]);
                    }
                }
                assert forall|k: int| 0 <= k < after.len() implies root_path(
                    g,
                    #[trigger] after[k],
                    cursor,
                ) && after[k].len() >= 2 && seen_next.contains(after[k][after[k].len() - 2]) by {
                    if k < before.len() {
                        assert(after[k] == before[k]);
                    } else {
                        let i = k - before.len();
                        assert(after[k] == added[i]);
                        assert(root_path(g, sub[i], r));
                        lemma_root_path_push(g, sub[i], r, cursor);
                    }
                }
                assert forall|p: Seq<StepId>|
                    #[trigger] root_path(g, p, cursor) && p.len() >= 2 && seen_next.contains(
                        p[p.len() - 2],
                    ) implies listed(after, p) by {
                    if seen.contains(p[p.len() - 2]) {
                        assert(listed(before, p));
                        let k = choose|k: int| 0 <= k < before.len() && #[trigger] before[k] == p;
                        assert(after[k] == p);
                    } else {
                        lemma_root_path_pop(g, p, cursor);
                        assert(listed(sub, p.drop_last()));
                        let i = choose|i: int| 0 <= i < sub.len() && #[trigger] sub[i] == p.drop_last();
                        assert(after[before.len() + i] == added[i]);
                        assert(added[i] == p);
                    }
                }
                assert forall|a: int, b: int| 0 <= a < b < after.len() implies #[trigger] after[a]
                    != #[trigger] after[b] by {
                    if b < before.len() {
                        assert(before[a] != before[b]);
                    } else if a < before.len() {
                        let i = b - before.len();
                        assert(after[b] == added[i]);
                        assert(after[a] == before[a]);
                        assert(added[i][added[i].len() - 2] == r);
                    } else {
                        let ia = a - before.len();
                        let ib = b - before.len();
                        assert(after[a] == added[ia]);
                        assert(after[b] == added[ib]);
                        assert(sub[ia] != sub[ib]);
                        if added[ia] == added[ib] {
                            assert(sub[ia] =~= added[ia].drop_last());
                            assert(sub[ib] =~= added[ib].drop_last());
                        }
                    }
                }
            }
            j += 1;
        }
        proof {
            let listing = views(paths@);
            assert(order.subrange(0, j as int) =~= order);
            let r0 = order[0];
            assert(order.contains(r0));
            assert(edge(g, cursor, r0));
            assert forall|p: Seq<StepId>| #[trigger] root_path(g, p, cursor) implies listed(
                listing,
                p,
            ) by {
                lemma_root_path_long(g, p, cursor, r0);
                lemma_root_path_pop(g, p, cursor);
                assert(preds@.contains(p[p.len() - 2]));
                assert(order.contains(p[p.len() - 2]));
            }
        }
        paths
    }
}

/// The predecessors of one step that are not redundant.
fn kept_requires(steps: &[Step], index: usize) -> (result: IdSet)
    requires
        steps_wf(steps@),
        distinct_ids(steps@),
        closed(graph_of(steps@)),
        acyclic(graph_of(steps@)),
        index < steps@.len(),
    ensures
        result.wf(),
        result@ == kept(graph_of(steps@), steps@[index as int].id),
{
    let ghost g = graph_of(steps@);
    let step = &steps[index];
    let ghost s = step.id;
    let mut result = step.requires.clone();
    proof {
        lemma_graph_of_entry(steps@, index as int);
        lemma_graph_of_finite(steps@);
        step.requires.lemma_order();
    }
    if step.requires.len() > 1 {
        let full = paths_from(steps, step.id);
        let ghost listing = views(full@);
        proof {
            assert(step.requires.order().contains(step.requires.order()[0]));
            let r0 = step.requires.order()[0];
            assert(edge(g, s, r0));
            assert forall|k: int| 0 <= k < full@.len() implies (#[trigger] full@[k])@.len()
                >= 1 by {
                assert(root_path(g, listing[k], s));
            }
            assert(g[s].contains(r0));
        }
        let ps = shorten_each(full);
        let ghost short = views(ps@);
        let mut i0: usize = 0;
        while i0 < ps.len()
            invariant
                i0 <= ps@.len(),
                short == views(ps@),
                short == shortened(listing),
                result.wf(),
                result@ == g[s].difference(dropped(short, i0 as int)),
            decreases ps@.len() - i0,
        {
            let mut i1: usize = 0;
            let mut found = false;
            while i1 < ps.len() && !found
                invariant
                    i0 < ps@.len(),
                    i1 <= ps@.len(),
                    short == views(ps@),
                    found ==> shadowed(short, i0 as int),
                    !found ==> forall|b: int|
                        0 <= b < i1 && b != i0 ==> !short[i0 as int].is_prefix_of(
                            #[trigger] short[b],
                        ),
                decreases ps@.len() - i1 + (if found { 0int } else { 1int }),
            {
                if i0 != i1 && is_prefix_of(ps[i0].as_slice(), ps[i1].as_slice()) {
                    assert(short[i0 as int].is_prefix_of(short[i1 as int]));
                    found = true;
                } else {
                    i1 += 1;
                }
            }
            let ghost before = result@;
            if found && ps[i0].len() > 0 {
                let last = ps[i0][ps[i0].len() - 1];
                result.remove(last);
            }
            proof {
                let a = i0 as int;
                let was = dropped(short, a);
                let now = dropped(short, a + 1);
                assert forall|p: StepId| now.contains(p) <==> (was.contains(p) || (shadowed(short, a)
                    && short[a].len() > 0 && short[a].last() == p)) by {
                    if now.contains(p) {
                        let k = choose|k: int|
                            0 <= k < a + 1 && #[trigger] shadowed(short, k) && short[k].len() > 0
                                && short[k].last() == p;
                        if k < a {
                            assert(was.contains(p));
                        }
                    }
                    if was.contains(p) {
                        let k = choose|k: int|
                            0 <= k < a && #[trigger] shadowed(short, k) && short[k].len() > 0
                                && short[k].last() == p;
                        assert(0 <= k < a + 1);
                    }
                }
                assert(result@ =~= g[s].difference(now));
            }
            i0 += 1;
        }
        proof {
            assert forall|p: StepId| result@.contains(p) <==> kept(g, s).contains(p) by {
                lemma_dropped_is_redundant(g, s, listing, p);
            }
            assert(result@ =~= kept(g, s));
        }
    } else {
        proof {
            lemma_single_kept(g, s, step.requires);
        }
    }
    result
}

/// Removes the redundant dependencies: a direct predecessor of a step is
/// dropped where another direct predecessor of that step depends on it.
/// What depends on what stays as it was, and afterwards no edge runs beside
/// a chain of two or more edges.
pub fn linearize(steps: &mut Vec<Step>)
    requires
        steps_wf(old(steps)@),
        distinct_ids(old(steps)@),
        closed(graph_of(old(steps)@)),
        acyclic(graph_of(old(steps)@)),
    ensures
        final(steps)@.len() == old(steps)@.len(),
        steps_wf(final(steps)@),
        distinct_ids(final(steps)@),
        forall|i: int|
            0 <= i < old(steps)@.len() ==> {
                &&& (#[trigger] final(steps)@[i]).id == old(steps)@[i].id
                &&& final(steps)@[i].descriptor == old(steps)@[i].descriptor
                &&& final(steps)@[i].wants == old(steps)@[i].wants
                &&& final(steps)@[i].target_name == old(steps)@[i].target_name
                &&& final(steps)@[i].name == old(steps)@[i].name
                &&& final(steps)@[i].note == old(steps)@[i].note
                &&& final(steps)@[i].requires@ == kept(graph_of(old(steps)@), old(steps)@[i].id)
            },
        graph_of(final(steps)@) == reduced(graph_of(old(steps)@)),
        closed(graph_of(final(steps)@)),
        acyclic(graph_of(final(steps)@)),
        forall|a: StepId, b: StepId|
            depends(graph_of(old(steps)@), a, b) <==> #[trigger] depends(
                graph_of(final(steps)@),
                a,
                b,
            ),
        forall|a: StepId, c: StepId|
            #[trigger] edge(graph_of(final(steps)@), a, c) ==> !depends_indirectly(
                graph_of(final(steps)@),
                a,
                c,
            ),
{
    let ghost g = graph_of(steps@);
    let mut reduced_sets: Vec<IdSet> = Vec::new();
    let mut i: usize = 0;
    while i < steps.len()
        invariant
            steps@ == old(steps)@,
            g == graph_of(steps@),
            steps_wf(steps@),
            distinct_ids(steps@),
            closed(g),
            acyclic(g),
            i <= steps@.len(),
            reduced_sets@.len() == i,
            forall|k: int|
                0 <= k < i ==> (#[trigger] reduced_sets@[k]).wf() && reduced_sets@[k]@ == kept(
                    g,
                    steps@[k].id,
                ),
        decreases steps@.len() - i,
    {
        let set = kept_requires(steps.as_slice(), i);
        reduced_sets.push(set);
        i += 1;
    }
    let mut j: usize = steps.len();
    while j > 0
        invariant
            j <= old(steps)@.len(),
            steps@.len() == old(steps)@.len(),
            reduced_sets@.len() == j,
            forall|k: int|
                0 <= k < j ==> (#[trigger] reduced_sets@[k]).wf() && reduced_sets@[k]@ == kept(
                    g,
                    old(steps)@[k].id,
                ),
            forall|k: int| 0 <= k < j ==> (#[trigger] steps@[k]) == old(steps)@[k],
            forall|k: int|
                j <= k < steps@.len() ==> {
                    &&& (#[trigger] steps@[k]).id == old(steps)@[k].id
                    &&& steps@[k].descriptor == old(steps)@[k].descriptor
                    &&& steps@[k].wants == old(steps)@[k].wants
                    &&& steps@[k].target_name == old(steps)@[k].target_name
                    &&& steps@[k].name == old(steps)@[k].name
                    &&& steps@[k].note == old(steps)@[k].note
                    &&& steps@[k].requires.wf()
                    &&& steps@[k].requires@ == kept(g, old(steps)@[k].id)
                },
        decreases j,
    {
        j -= 1;
        let set = reduced_sets.pop().unwrap();
        steps[j].requires = set;
    }
    proof {
        let before = old(steps)@;
        let after = steps@;
        assert(steps_wf(after));
        assert(distinct_ids(after)) by {
            assert forall|a: int, b: int| 0 <= a < b < after.len() implies (#[trigger] after[a]).id
                != (#[trigger] after[b]).id by {
                assert(before[a].id != before[b].id);
            }
        }
        lemma_graph_of_dom(before);
        lemma_graph_of_dom(after);
        assert forall|id: StepId| graph_of(after).dom().contains(id) <==> reduced(g).dom().contains(
            id,
        ) by {
            if graph_of(after).dom().contains(id) {
                let k = choose|k: int| 0 <= k < after.len() && (#[trigger] after[k]).id == id;
                assert(before[k].id == id);
            }
            if g.dom().contains(id) {
                let k = choose|k: int| 0 <= k < before.len() && (#[trigger] before[k]).id == id;
                assert(after[k].id == id);
            }
        }
        assert forall|id: StepId| graph_of(after).dom().contains(id) implies #[trigger] graph_of(
            after,
        )[id] == reduced(g)[id] by {
            let k = choose|k: int| 0 <= k < after.len() && (#[trigger] after[k]).id == id;
            lemma_graph_of_entry(after, k);
        }
        assert(graph_of(after) =~= reduced(g));
        lemma_graph_of_finite(before);
        crate::reach::lemma_reduced_subgraph(g);
        assert forall|a: StepId, b: StepId| depends(g, a, b) <==> #[trigger] depends(
            graph_of(after),
            a,
            b,
        ) by {
            lemma_reduction_preserves_reachability(g, a, b);
        }
        assert forall|a: StepId, c: StepId| #[trigger] edge(
            graph_of(after),
            a,
            c,
        ) implies !depends_indirectly(graph_of(after), a, c) by {
            lemma_reduction_leaves_no_shortcut(g, a, c);
        }
    }
}

} // verus!
