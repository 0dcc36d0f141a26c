//! Dependency relations as mathematical maps: chains, transitive dependence,
//! focusing on a node and the reduction of redundant edges.

use crate::step::StepId;
use vstd::prelude::*;
use vstd::set_lib::lemma_len_subset;

verus! {

/// A dependency relation: each node with the set of its direct predecessors.
pub type DepMap = Map<StepId, Set<StepId>>;

/// `s` directly requires `r`.
pub open spec fn edge(g: DepMap, s: StepId, r: StepId) -> bool {
    g.dom().contains(s) && g[s].contains(r)
}

/// The element at position `i` of `p` directly requires the next one.
pub open spec fn link(g: DepMap, p: Seq<StepId>, i: int) -> bool {
    edge(g, p[i], p[i + 1])
}

/// `p` is a chain from `s` down to `r`: each element directly requires the
/// next one.
pub open spec fn chain(g: DepMap, p: Seq<StepId>, s: StepId, r: StepId) -> bool {
    &&& p.len() >= 1
    &&& p[0] == s
    &&& p.last() == r
    &&& forall|i: int| 0 <= i < p.len() - 1 ==> #[trigger] link(g, p, i)
}

/// `s` requires `r` through one or more edges.
pub open spec fn depends(g: DepMap, s: StepId, r: StepId) -> bool {
    exists|p: Seq<StepId>| #[trigger] chain(g, p, s, r) && p.len() >= 2
}

/// `s` requires `r` through two or more edges.
pub open spec fn depends_indirectly(g: DepMap, s: StepId, r: StepId) -> bool {
    exists|p: Seq<StepId>| #[trigger] chain(g, p, s, r) && p.len() >= 3
}

/// Every required node is itself a node.
pub open spec fn closed(g: DepMap) -> bool {
    forall|s: StepId, r: StepId| #[trigger] edge(g, s, r) ==> g.dom().contains(r)
}

/// No node requires itself, directly or through others.
pub open spec fn acyclic(g: DepMap) -> bool {
    forall|s: StepId| !#[trigger] depends(g, s, s)
}

/// Finitely many nodes, each with finitely many predecessors.
pub open spec fn finite_graph(g: DepMap) -> bool {
    &&& g.dom().finite()
    &&& forall|s: StepId| g.dom().contains(s) ==> (#[trigger] g[s]).finite()
}

/// Everything that `s` requires, directly or through others.
pub open spec fn ancestors(g: DepMap, s: StepId) -> Set<StepId> {
    Set::new(|x: StepId| depends(g, s, x))
}

/// The node `t` together with everything it requires.
pub open spec fn cone(g: DepMap, t: StepId) -> Set<StepId> {
    Set::new(|x: StepId| x == t || depends(g, t, x))
}

/// The relation restricted to `t` and everything it requires.
pub open spec fn focused(g: DepMap, t: StepId) -> DepMap {
    g.restrict(cone(g, t))
}

/// `p` is required by `s` directly and also by another direct predecessor
/// of `s`, so that the edge from `s` to `p` adds nothing.
pub open spec fn redundant(g: DepMap, s: StepId, p: StepId) -> bool {
    exists|q: StepId| #[trigger] edge(g, s, q) && depends(g, q, p)
}

/// The predecessors of `s` that stay when the redundant ones are dropped.
pub open spec fn kept(g: DepMap, s: StepId) -> Set<StepId> {
    Set::new(|p: StepId| edge(g, s, p) && !redundant(g, s, p))
}

/// The relation with every redundant edge dropped.
pub open spec fn reduced(g: DepMap) -> DepMap {
    Map::new(|s: StepId| g.dom().contains(s), |s: StepId| kept(g, s))
}

/// A direct requirement is a dependence.
pub proof fn lemma_edge_depends(g: DepMap, s: StepId, r: StepId)
    requires
        edge(g, s, r),
    ensures
        depends(g, s, r),
{
    let p = seq![s, r];
    assert forall|i: int| 0 <= i < p.len() - 1 implies #[trigger] link(g, p, i) by {}
    assert(chain(g, p, s, r));
}

/// Chains compose: the second continues where the first ends.
pub proof fn lemma_chain_join(
    g: DepMap,
    first: Seq<StepId>,
    second: Seq<StepId>,
    a: StepId,
    b: StepId,
    c: StepId,
)
    requires
        chain(g, first, a, b),
        chain(g, second, b, c),
    ensures
        chain(g, first + second.subrange(1, second.len() as int), a, c),
        (first + second.subrange(1, second.len() as int)).len() == first.len() + second.len() - 1,
{
    let p = first + second.subrange(1, second.len() as int);
    assert forall|i: int| 0 <= i < p.len() - 1 implies #[trigger] link(g, p, i) by {
        if i < first.len() - 1 {
            assert(link(g, first, i));
        } else {
            let j = i - (first.len() - 1);
            assert(link(g, second, j));
            assert(p[i] == second[j]);
            assert(p[i + 1] == second[j + 1]);
        }
    }
}

/// Dependence is transitive.
pub proof fn lemma_depends_trans(g: DepMap, a: StepId, b: StepId, c: StepId)
    requires
        depends(g, a, b),
        depends(g, b, c),
    ensures
        depends(g, a, c),
        depends_indirectly(g, a, c),
{
    let first = choose|p: Seq<StepId>| #[trigger] chain(g, p, a, b) && p.len() >= 2;
    let second = choose|p: Seq<StepId>| #[trigger] chain(g, p, b, c) && p.len() >= 2;
    lemma_chain_join(g, first, second, a, b, c);
}

/// A dependence starts with an edge, after which the target is reached or
/// depended on.
pub proof fn lemma_depends_first(g: DepMap, s: StepId, r: StepId) -> (m: StepId)
    requires
        depends(g, s, r),
    ensures
        edge(g, s, m),
        m == r || depends(g, m, r),
{
    let p = choose|p: Seq<StepId>| #[trigger] chain(g, p, s, r) && p.len() >= 2;
    assert(link(g, p, 0));
    let m = p[1];
    if p.len() > 2 {
        let rest = p.subrange(1, p.len() as int);
        assert forall|i: int| 0 <= i < rest.len() - 1 implies #[trigger] link(g, rest, i) by {
            assert(link(g, p, i + 1));
        }
        assert(chain(g, rest, m, r));
    }
    m
}

/// A dependence through two or more edges starts with an edge followed by a
/// dependence.
pub proof fn lemma_indirect_first(g: DepMap, s: StepId, r: StepId) -> (m: StepId)
    requires
        depends_indirectly(g, s, r),
    ensures
        edge(g, s, m),
        depends(g, m, r),
{
    let p = choose|p: Seq<StepId>| #[trigger] chain(g, p, s, r) && p.len() >= 3;
    assert(link(g, p, 0));
    let m = p[1];
    let rest = p.subrange(1, p.len() as int);
    assert forall|i: int| 0 <= i < rest.len() - 1 implies #[trigger] link(g, rest, i) by {
        assert(link(g, p, i + 1));
    }
    assert(chain(g, rest, m, r));
    m
}

/// A dependence ends with an edge, before which the source stands or is
/// depended on.
pub proof fn lemma_depends_last(g: DepMap, s: StepId, r: StepId) -> (m: StepId)
    requires
        depends(g, s, r),
    ensures
        edge(g, m, r),
        m == s || depends(g, s, m),
{
    let p = choose|p: Seq<StepId>| #[trigger] chain(g, p, s, r) && p.len() >= 2;
    assert(link(g, p, p.len() - 2));
    let m = p[p.len() - 2];
    if p.len() > 2 {
        let front = p.subrange(0, p.len() - 1);
        assert forall|i: int| 0 <= i < front.len() - 1 implies #[trigger] link(g, front, i) by {
            assert(link(g, p, i));
        }
        assert(chain(g, front, s, m));
    }
    m
}

/// A chain of one relation is a chain of any relation that has its edges.
pub proof fn lemma_depends_mono(g: DepMap, h: DepMap, s: StepId, r: StepId)
    requires
        depends(g, s, r),
        forall|a: StepId, b: StepId| #[trigger] edge(g, a, b) ==> edge(h, a, b),
    ensures
        depends(h, s, r),
{
    let p = choose|p: Seq<StepId>| #[trigger] chain(g, p, s, r) && p.len() >= 2;
    assert forall|i: int| 0 <= i < p.len() - 1 implies #[trigger] link(h, p, i) by {
        assert(link(g, p, i));
    }
    assert(chain(h, p, s, r));
}

/// In a closed relation, whatever a node depends on is a node.
pub proof fn lemma_ancestors_in_dom(g: DepMap, s: StepId)
    requires
        closed(g),
    ensures
        ancestors(g, s).subset_of(g.dom()),
        cone(g, s).subset_of(g.dom().insert(s)),
{
    assert forall|x: StepId| ancestors(g, s).contains(x) implies g.dom().contains(x) by {
        let m = lemma_depends_last(g, s, x);
    }
}

/// Along an edge of a finite closed acyclic relation the number of
/// ancestors strictly falls.
pub proof fn lemma_ancestors_shrink(g: DepMap, s: StepId, q: StepId)
    requires
        g.dom().finite(),
        closed(g),
        acyclic(g),
        edge(g, s, q),
    ensures
        ancestors(g, s).finite(),
        ancestors(g, q).len() < ancestors(g, s).len(),
{
    lemma_ancestors_in_dom(g, s);
    lemma_len_subset(ancestors(g, s), g.dom());
    lemma_edge_depends(g, s, q);
    assert forall|x: StepId| ancestors(g, q).contains(x) implies ancestors(g, s).remove(
        q,
    ).contains(x) by {
        lemma_depends_trans(g, s, q, x);
    }
    lemma_len_subset(ancestors(g, q), ancestors(g, s).remove(q));
    assert(ancestors(g, s).contains(q));
}

/// The direct predecessors of `s` that depend on `m`.
pub open spec fn dominating(g: DepMap, s: StepId, m: StepId) -> Set<StepId> {
    Set::new(|x: StepId| edge(g, s, x) && depends(g, x, m))
}

proof fn lemma_dominating_shrink(g: DepMap, s: StepId, m: StepId, q: StepId)
    requires
        finite_graph(g),
        acyclic(g),
        edge(g, s, q),
        depends(g, q, m),
    ensures
        dominating(g, s, m).finite(),
        dominating(g, s, q).len() < dominating(g, s, m).len(),
        dominating(g, s, m).len() <= g[s].len(),
{
    assert(dominating(g, s, m).subset_of(g[s]));
    lemma_len_subset(dominating(g, s, m), g[s]);
    assert forall|x: StepId| dominating(g, s, q).contains(x) implies dominating(g, s, m).remove(
        q,
    ).contains(x) by {
        lemma_depends_trans(g, x, q, m);
    }
    lemma_len_subset(dominating(g, s, q), dominating(g, s, m).remove(q));
    assert(dominating(g, s, m).contains(q));
}

/// The reduction only drops edges.
pub proof fn lemma_reduced_subgraph(g: DepMap)
    ensures
        reduced(g).dom() == g.dom(),
        forall|a: StepId, b: StepId| #[trigger] edge(reduced(g), a, b) ==> edge(g, a, b),
        closed(g) ==> closed(reduced(g)),
        acyclic(g) ==> acyclic(reduced(g)),
{
    assert(reduced(g).dom() =~= g.dom());
    if closed(g) {
        assert forall|s: StepId, r: StepId| #[trigger] edge(reduced(g), s, r) implies reduced(
            g,
        ).dom().contains(r) by {
            assert(edge(g, s, r));
        }
    }
    if acyclic(g) {
        assert forall|s: StepId| !#[trigger] depends(reduced(g), s, s) by {
            if depends(reduced(g), s, s) {
                lemma_depends_mono(reduced(g), g, s, s);
            }
        }
    }
}

proof fn lemma_reduced_keeps_edge(g: DepMap, s: StepId, m: StepId)
    requires
        finite_graph(g),
        closed(g),
        acyclic(g),
        edge(g, s, m),
    ensures
        depends(reduced(g), s, m),
    decreases ancestors(g, s).len(), dominating(g, s, m).len(),
{
    if redundant(g, s, m) {
        let q = choose|q: StepId| #[trigger] edge(g, s, q) && depends(g, q, m);
        lemma_dominating_shrink(g, s, m, q);
        lemma_ancestors_shrink(g, s, q);
        lemma_reduced_keeps_edge(g, s, q);
        lemma_reduced_keeps_depends(g, q, m);
        lemma_depends_trans(reduced(g), s, q, m);
    } else {
        assert(kept(g, s).contains(m));
        assert(edge(reduced(g), s, m));
        lemma_edge_depends(reduced(g), s, m);
    }
}

proof fn lemma_reduced_keeps_depends(g: DepMap, a: StepId, b: StepId)
    requires
        finite_graph(g),
        closed(g),
        acyclic(g),
        depends(g, a, b),
    ensures
        depends(reduced(g), a, b),
    decreases ancestors(g, a).len(), g[a].len() + 1,
{
    let m = lemma_depends_first(g, a, b);
    assert(dominating(g, a, m).subset_of(g[a]));
    lemma_len_subset(dominating(g, a, m), g[a]);
    lemma_reduced_keeps_edge(g, a, m);
    if m != b {
        lemma_ancestors_shrink(g, a, m);
        lemma_reduced_keeps_depends(g, m, b);
        lemma_depends_trans(reduced(g), a, m, b);
    }
}

/// Dropping the redundant edges preserves reachability: whatever a node
/// depended on before, it still depends on afterwards.
pub proof fn lemma_reduction_preserves_reachability(g: DepMap, a: StepId, b: StepId)
    requires
        finite_graph(g),
        closed(g),
        acyclic(g),
    ensures
        depends(g, a, b) <==> depends(reduced(g), a, b),
{
    lemma_reduced_subgraph(g);
    if depends(g, a, b) {
        lemma_reduced_keeps_depends(g, a, b);
    }
    if depends(reduced(g), a, b) {
        lemma_depends_mono(reduced(g), g, a, b);
    }
}

/// After the reduction no edge is left between two nodes that are also
/// joined by a chain of two or more edges, in the relation before the
/// reduction or after it.
pub proof fn lemma_reduction_leaves_no_shortcut(g: DepMap, a: StepId, c: StepId)
    requires
        edge(reduced(g), a, c),
    ensures
        !depends_indirectly(g, a, c),
        !depends_indirectly(reduced(g), a, c),
{
    lemma_reduced_subgraph(g);
    assert(kept(g, a).contains(c));
    if depends_indirectly(g, a, c) {
        let q = lemma_indirect_first(g, a, c);
        assert(redundant(g, a, c));
    }
    if depends_indirectly(reduced(g), a, c) {
        let q = lemma_indirect_first(reduced(g), a, c);
        lemma_depends_mono(reduced(g), g, q, c);
        assert(edge(g, a, q));
        assert(redundant(g, a, c));
    }
}

/// A chain that starts at the focus node stays inside the focused relation.
proof fn lemma_focused_keeps_chain(g: DepMap, t: StepId, p: Seq<StepId>, r: StepId)
    requires
        chain(g, p, t, r),
    ensures
        chain(focused(g, t), p, t, r),
{
    let h = focused(g, t);
    assert forall|i: int| 0 <= i < p.len() - 1 implies #[trigger] link(h, p, i) by {
        assert(link(g, p, i));
        if i > 0 {
            let front = p.subrange(0, i + 1);
            assert forall|k: int| 0 <= k < front.len() - 1 implies #[trigger] link(
                g,
                front,
                k,
            ) by {
                assert(link(g, p, k));
            }
            assert(chain(g, front, t, p[i]));
        }
        assert(cone(g, t).contains(p[i]));
    }
}

/// What the focus node depends on is the same in the focused relation.
pub proof fn lemma_focused_depends(g: DepMap, t: StepId, r: StepId)
    ensures
        depends(focused(g, t), t, r) <==> depends(g, t, r),
{
    if depends(g, t, r) {
        let p = choose|p: Seq<StepId>| #[trigger] chain(g, p, t, r) && p.len() >= 2;
        lemma_focused_keeps_chain(g, t, p, r);
    }
    if depends(focused(g, t), t, r) {
        lemma_depends_mono(focused(g, t), g, t, r);
    }
}

/// Focusing twice on the same node is the same as focusing once.
pub proof fn lemma_focus_idempotent(g: DepMap, t: StepId)
    ensures
        focused(focused(g, t), t) == focused(g, t),
{
    let h = focused(g, t);
    assert forall|x: StepId| cone(h, t).contains(x) <==> cone(g, t).contains(x) by {
        lemma_focused_depends(g, t, x);
    }
    assert(cone(h, t) =~= cone(g, t));
    assert(focused(h, t) =~= h);
}

/// The focused relation holds exactly the focus node and what it depends
/// on, each with all its predecessors; it is closed where the whole is.
pub proof fn lemma_focused_shape(g: DepMap, t: StepId)
    requires
        closed(g),
        g.dom().contains(t),
    ensures
        focused(g, t).dom() == cone(g, t),
        forall|s: StepId| cone(g, t).contains(s) ==> #[trigger] focused(g, t)[s] == g[s],
        closed(focused(g, t)),
        acyclic(g) ==> acyclic(focused(g, t)),
{
    lemma_ancestors_in_dom(g, t);
    assert(focused(g, t).dom() =~= cone(g, t));
    assert forall|s: StepId, r: StepId| #[trigger] edge(focused(g, t), s, r) implies focused(
        g,
        t,
    ).dom().contains(r) by {
        assert(edge(g, s, r));
        lemma_edge_depends(g, s, r);
        if s != t {
            lemma_depends_trans(g, t, s, r);
        }
    }
    if acyclic(g) {
        assert forall|s: StepId| !#[trigger] depends(focused(g, t), s, s) by {
            if depends(focused(g, t), s, s) {
                lemma_depends_mono(focused(g, t), g, s, s);
            }
        }
    }
}

} // verus!
