//! Depth-first ordering of a dependency graph, with cycle reporting.

use crate::collections::{
    edge_map_get, edge_map_keys, edge_set_items, graph_map, lemma_push_to_set, EdgeMap,
};
use crate::run::dependency_resolution::TopologicalSortError;
use std::collections::HashSet;
use vstd::prelude::*;
use vstd::std_specs::hash::group_hash_axioms;

verus! {

broadcast use group_hash_axioms;

/// `u` is expanded in `g`, and `v` is one of its successors.
pub open spec fn has_edge(g: Map<usize, Seq<usize>>, u: usize, v: usize) -> bool {
    g.dom().contains(u) && g[u].contains(v)
}

/// `n` is expanded in `g` or is a successor of an expanded node.
pub open spec fn is_node(g: Map<usize, Seq<usize>>, n: usize) -> bool {
    g.dom().contains(n) || exists|u: usize| has_edge(g, u, n)
}

/// Each node of `p` has the next one as a successor.
pub open spec fn is_path(g: Map<usize, Seq<usize>>, p: Seq<usize>) -> bool {
    forall|i: int| 0 <= i < p.len() - 1 ==> has_edge(g, #[trigger] p[i], p[i + 1])
}

/// `p` is a path of at least one edge that ends where it begins.
pub open spec fn is_cycle(g: Map<usize, Seq<usize>>, p: Seq<usize>) -> bool {
    p.len() >= 2 && p[0] == p[p.len() - 1] && is_path(g, p)
}

/// Some path in `g` is a cycle.
pub open spec fn has_cycle(g: Map<usize, Seq<usize>>) -> bool {
    exists|p: Seq<usize>| is_cycle(g, p)
}

/// `v` stands in `order` somewhere before position `i`.
pub open spec fn placed_before(order: Seq<usize>, v: usize, i: int) -> bool {
    exists|j: int| 0 <= j < i && order[j] == v
}

/// Every successor stands before the node that depends on it.
pub open spec fn respects_edges(g: Map<usize, Seq<usize>>, order: Seq<usize>) -> bool {
    forall|i: int, v: usize|
        0 <= i < order.len() && #[trigger] has_edge(g, order[i], v) ==> placed_before(order, v, i)
}

/// `order` lists every node of `g` once, each after all of its successors.
pub open spec fn is_topological_order(g: Map<usize, Seq<usize>>, order: Seq<usize>) -> bool {
    &&& order.no_duplicates()
    &&& forall|n: usize| order.contains(n) <==> is_node(g, n)
    &&& respects_edges(g, order)
}

/// Along a path, each step moves strictly towards the front of a
/// topological order.
proof fn lemma_path_descends(g: Map<usize, Seq<usize>>, order: Seq<usize>, p: Seq<usize>, k: int)
    requires
        is_topological_order(g, order),
        is_path(g, p),
        0 <= k < p.len(),
        p.len() >= 2,
    ensures
        exists|a: int, b: int|
            0 <= a < order.len() && 0 <= b < order.len() && order[a] == p[0] && order[b] == p[k]
                && b + k <= a,
    decreases k,
{
    if k == 0 {
        assert(has_edge(g, p[0], p[1]));
        assert(is_node(g, p[0]));
        assert(order.contains(p[0]));
        let a = choose|a: int| 0 <= a < order.len() && order[a] == p[0];
        assert(0 <= a < order.len() && 0 <= a < order.len() && order[a] == p[0] && order[a] == p[k]
            && a + k <= a);
    } else {
        lemma_path_descends(g, order, p, k - 1);
        let (a, b) = choose|a: int, b: int|
            0 <= a < order.len() && 0 <= b < order.len() && order[a] == p[0] && order[b] == p[k - 1]
                && b + (k - 1) <= a;
        assert(has_edge(g, p[k - 1], p[k - 1 + 1]));
        assert(has_edge(g, order[b], p[k]));
        assert(placed_before(order, p[k], b));
        let c = choose|c: int| 0 <= c < b && order[c] == p[k];
        assert(0 <= a < order.len() && 0 <= c < order.len() && order[a] == p[0] && order[c] == p[k]
            && c + k <= a);
    }
}

/// A graph that has a topological order has no cycle.
pub proof fn lemma_ordered_graph_is_acyclic(g: Map<usize, Seq<usize>>, order: Seq<usize>)
    requires
        is_topological_order(g, order),
    ensures
        !has_cycle(g),
{
    if has_cycle(g) {
        let p = choose|p: Seq<usize>| is_cycle(g, p);
        let k = p.len() - 1;
        lemma_path_descends(g, order, p, k);
        let (a, b) = choose|a: int, b: int|
            0 <= a < order.len() && 0 <= b < order.len() && order[a] == p[0] && order[b] == p[k]
                && b + k <= a;
        assert(order[a] == order[b]);
        assert(a != b);
    }
}

/// The successors of a node, none where the node is not expanded.
pub open spec fn successors_of(g: Map<usize, Seq<usize>>, node: usize) -> Seq<usize> {
    if g.dom().contains(node) {
        g[node]
    } else {
        Seq::empty()
    }
}

/// The cycle that an edge from the end of `path` back to `v`, which is on
/// the path, closes: the path from `v` on, and `v` once more.
pub open spec fn closing_cycle(path: Seq<usize>, v: usize) -> Seq<usize> {
    path.subrange(choose|i: int| 0 <= i < path.len() && path[i] == v, path.len() as int).push(v)
}

/// What a visit of `node` comes to, where `done` were finished before and
/// `path` leads from the root of the search to the node that is being
/// expanded. A node on the path closes a cycle, which ends the search; a
/// node that is finished is passed by; of any other node the successors are
/// visited in their order, and then the node is finished itself. `budget`
/// bounds the depth of the visit, and does not matter where it is greater
/// than the number of expanded nodes.
pub open spec fn visit_outcome(
    g: Map<usize, Seq<usize>>,
    node: usize,
    done: Seq<usize>,
    path: Seq<usize>,
    budget: nat,
) -> Result<Seq<usize>, Seq<usize>>
    decreases budget, 0nat,
{
    if path.contains(node) {
        Err(closing_cycle(path, node))
    } else if done.contains(node) || budget == 0 {
        Ok(done)
    } else {
        match visits_outcome(g, successors_of(g, node), done, path.push(node), (budget - 1) as nat) {
            Ok(d) => Ok(d.push(node)),
            Err(cycle) => Err(cycle),
        }
    }
}

/// What visiting each of `nodes` in turn comes to; the first cycle ends
/// the search.
pub open spec fn visits_outcome(
    g: Map<usize, Seq<usize>>,
    nodes: Seq<usize>,
    done: Seq<usize>,
    path: Seq<usize>,
    budget: nat,
) -> Result<Seq<usize>, Seq<usize>>
    decreases budget, nodes.len() + 1,
{
    if nodes.len() == 0 {
        Ok(done)
    } else {
        match visits_outcome(g, nodes.drop_last(), done, path, budget) {
            Ok(d) => visit_outcome(g, nodes.last(), d, path, budget),
            Err(cycle) => Err(cycle),
        }
    }
}

/// What a depth-first search of `g` comes to, where it enters the nodes in
/// the order of `keys` and the successors of a node in their order: the
/// order in which it finishes the nodes, or the first cycle that it closes.
pub open spec fn depth_first_search(g: Map<usize, Seq<usize>>, keys: Seq<usize>) -> Result<
    Seq<usize>,
    Seq<usize>,
> {
    visits_outcome(g, keys, Seq::empty(), Seq::empty(), keys.len() + 1)
}

/// The order in which a depth-first search of a graph without a cycle
/// finishes the nodes.
pub open spec fn depth_first_order(g: Map<usize, Seq<usize>>, keys: Seq<usize>) -> Seq<usize> {
    match depth_first_search(g, keys) {
        Ok(order) => order,
        Err(_) => Seq::empty(),
    }
}

/// A cycle that the visits of the first nodes of a list close ends the
/// visits of the whole list.
pub proof fn lemma_cycle_ends_the_search(
    g: Map<usize, Seq<usize>>,
    nodes: Seq<usize>,
    k: int,
    done: Seq<usize>,
    path: Seq<usize>,
    budget: nat,
)
    requires
        0 <= k <= nodes.len(),
        visits_outcome(g, nodes.take(k), done, path, budget) is Err,
    ensures
        visits_outcome(g, nodes, done, path, budget) == visits_outcome(g, nodes.take(k), done, path, budget),
    decreases nodes.len() - k,
{
    if k < nodes.len() {
        assert(nodes.take(k + 1).drop_last() =~= nodes.take(k));
        lemma_cycle_ends_the_search(g, nodes, k + 1, done, path, budget);
    } else {
        assert(nodes.take(k) =~= nodes);
    }
}

/// The nodes of `g` that a search has not yet entered.
pub open spec fn unentered(g: Map<usize, Seq<usize>>, visited: Set<usize>, stack: Seq<usize>) -> Set<
    usize,
> {
    g.dom().difference(visited.union(stack.to_set()))
}

/// What holds between the steps of the search: `result` lists the finished
/// nodes, each after its successors; `stack` is the path from the root of the
/// search to the node being expanded, and none of its nodes is finished.
pub open spec fn search_inv(
    g: Map<usize, Seq<usize>>,
    visited: Set<usize>,
    stack: Seq<usize>,
    result: Seq<usize>,
) -> bool {
    &&& g.dom().finite()
    &&& result.no_duplicates()
    &&& forall|n: usize| visited.contains(n) <==> result.contains(n)
    &&& stack.no_duplicates()
    &&& forall|i: int| 0 <= i < stack.len() ==> !visited.contains(#[trigger] stack[i])
    &&& is_path(g, stack)
    &&& forall|i: int| 0 <= i < result.len() ==> is_node(g, #[trigger] result[i])
    &&& respects_edges(g, result)
}

struct Search {
    visited: HashSet<usize>,
    visiting: HashSet<usize>,
    path: Vec<usize>,
    result: Vec<usize>,
}

impl Search {
    spec fn inv(&self, g: Map<usize, Seq<usize>>) -> bool {
        &&& search_inv(g, self.visited@, self.path@, self.result@)
        &&& self.visiting@ == self.path@.to_set()
    }
}

/// The nodes of the path from the first occurrence of `start`, and `start`
/// once more: the cycle that an edge from the path's end back to `start` closes.
fn reconstruct_cycle(start: usize, path: &Vec<usize>, Ghost(g): Ghost<Map<usize, Seq<usize>>>) -> (cycle:
    Vec<usize>)
    requires
        is_path(g, path@),
        path@.no_duplicates(),
        path@.contains(start),
        has_edge(g, path@.last(), start),
    ensures
        is_cycle(g, cycle@),
        cycle@ == closing_cycle(path@, start),
{
    let mut from: usize = 0;
    while path[from] != start
        invariant
            from < path.len(),
            exists|j: int| from <= j < path.len() && path[j] == start,
        decreases path.len() - from,
    {
        from += 1;
    }
    let mut cycle: Vec<usize> = Vec::new();
    let mut i: usize = from;
    while i < path.len()
        invariant
            from <= i <= path.len(),
            cycle@ == path@.subrange(from as int, i as int),
        decreases path.len() - i,
    {
        cycle.push(path[i]);
        assert(cycle@ =~= path@.subrange(from as int, i + 1));
        i += 1;
    }
    cycle.push(start);
    proof {
        let at = choose|i: int| 0 <= i < path@.len() && path@[i] == start;
        assert(at == from);
        let c = cycle@;
        let n = path@.len() - from;
        assert(c.len() == n + 1);
        assert(c[0] == path@[from as int]);
        assert forall|k: int| 0 <= k < c.len() - 1 implies has_edge(g, #[trigger] c[k], c[k + 1]) by {
            assert(c[k] == path@[from + k]);
            if k + 1 < n {
                assert(c[k + 1] == path@[from + k + 1]);
                assert(has_edge(g, path@[from + k], path@[from + k + 1]));
            } else {
                assert(c[k + 1] == start);
                assert(path@[from + k] == path@.last());
            }
        }
    }
    cycle
}

/// Enters `node`: finishes whatever it depends on, then the node itself, or
/// reports the cycle that the search ran into.
fn visit_node(node: usize, graph: &EdgeMap, search: &mut Search) -> (r: Result<(), Vec<usize>>)
    requires
        old(search).inv(graph_map(*graph)),
        is_node(graph_map(*graph), node),
        old(search).path@.len() > 0 ==> has_edge(graph_map(*graph), old(search).path@.last(), node),
    ensures
        match r {
            Ok(()) => {
                &&& final(search).inv(graph_map(*graph))
                &&& final(search).path@ == old(search).path@
                &&& final(search).visited@.contains(node)
                &&& old(search).visited@.subset_of(final(search).visited@)
                &&& forall|budget: nat|
                    budget > unentered(
                        graph_map(*graph),
                        old(search).visited@,
                        old(search).path@,
                    ).len() ==> Ok::<Seq<usize>, Seq<usize>>(final(search).result@) == #[trigger] visit_outcome(
                        graph_map(*graph),
                        node,
                        old(search).result@,
                        old(search).path@,
                        budget,
                    )
            },
            Err(cycle) => {
                &&& is_cycle(graph_map(*graph), cycle@)
                &&& forall|budget: nat|
                    budget > unentered(
                        graph_map(*graph),
                        old(search).visited@,
                        old(search).path@,
                    ).len() ==> Err::<Seq<usize>, Seq<usize>>(cycle@) == #[trigger] visit_outcome(
                        graph_map(*graph),
                        node,
                        old(search).result@,
                        old(search).path@,
                        budget,
                    )
            },
        },
    decreases unentered(graph_map(*graph), old(search).visited@, old(search).path@).len(),
{
    let ghost g = graph_map(*graph);
    let ghost stack0 = search.path@;
    let ghost visited0 = search.visited@;
    let ghost result0 = search.result@;
    let ghost measure = unentered(g, visited0, stack0).len();
    if search.visiting.contains(&node) {
        let cycle = reconstruct_cycle(node, &search.path, Ghost(g));
        return Err(cycle);
    }
    assert(!stack0.contains(node));
    if search.visited.contains(&node) {
        assert(result0.contains(node));
        return Ok(());
    }
    assert(!result0.contains(node));
    search.visiting.insert(node);
    search.path.push(node);
    proof {
        lemma_push_to_set(stack0, node);
        assert(search.path@ == stack0.push(node));
        assert forall|i: int| 0 <= i < search.path@.len() - 1 implies has_edge(
            g,
            #[trigger] search.path@[i],
            search.path@[i + 1],
        ) by {
            if i + 1 < stack0.len() {
                assert(has_edge(g, stack0[i], stack0[i + 1]));
            }
        }
        assert(search.inv(g));
    }
    match edge_map_get(graph, node) {
        Some(successors) => {
            let deps = edge_set_items(successors);
            let mut i: usize = 0;
            while i < deps.len()
                invariant
                    i <= deps.len(),
                    g == graph_map(*graph),
                    g.dom().contains(node),
                    deps@ == g[node],
                    search.inv(g),
                    search.path@ == stack0.push(node),
                    stack0 == old(search).path@,
                    visited0 == old(search).visited@,
                    visited0.subset_of(search.visited@),
                    !visited0.contains(node),
                    !stack0.contains(node),
                    forall|j: int| 0 <= j < i ==> search.visited@.contains(deps@[j]),
                    measure == unentered(g, visited0, stack0).len(),
                    result0 == old(search).result@,
                    !result0.contains(node),
                    forall|budget: nat|
                        budget >= measure ==> Ok::<Seq<usize>, Seq<usize>>(search.result@)
                            == #[trigger] visits_outcome(
                            g,
                            deps@.take(i as int),
                            result0,
                            stack0.push(node),
                            budget,
                        ),
                decreases deps.len() - i,
            {
                let dep = deps[i];
                let ghost result1 = search.result@;
                proof {
                    assert(deps@.take(i + 1).drop_last() =~= deps@.take(i as int));
                    assert(deps@.take(i + 1).last() == dep);
                    assert(g[node].contains(dep));
                    assert(has_edge(g, node, dep));
                    assert(search.path@.last() == node);
                    let now = unentered(g, search.visited@, search.path@);
                    let before = unentered(g, visited0, stack0);
                    lemma_push_to_set(stack0, node);
                    assert(before.finite());
                    assert(before.contains(node));
                    assert(now.subset_of(before.remove(node)));
                    vstd::set_lib::lemma_len_subset(now, before.remove(node));
                    assert(before.remove(node).len() == before.len() - 1);
                    assert(now.len() < before.len());
                }
                let ghost smaller = unentered(g, search.visited@, search.path@).len();
                let ghost path1 = stack0.push(node);
                match visit_node(dep, graph, search) {
                    Err(cycle) => {
                        proof {
                            assert forall|budget: nat| budget > measure implies Err::<
                                Seq<usize>,
                                Seq<usize>,
                            >(cycle@) == #[trigger] visit_outcome(g, node, result0, stack0, budget) by {
                                let rest = (budget - 1) as nat;
                                assert(Ok::<Seq<usize>, Seq<usize>>(result1) == visits_outcome(
                                    g,
                                    deps@.take(i as int),
                                    result0,
                                    path1,
                                    rest,
                                ));
                                assert(rest > smaller);
                                assert(Err::<Seq<usize>, Seq<usize>>(cycle@) == visit_outcome(
                                    g,
                                    dep,
                                    result1,
                                    path1,
                                    rest,
                                ));
                                assert(visits_outcome(g, deps@.take(i + 1), result0, path1, rest) == Err::<
                                    Seq<usize>,
                                    Seq<usize>,
                                >(cycle@));
                                lemma_cycle_ends_the_search(g, deps@, i + 1, result0, path1, rest);
                                assert(successors_of(g, node) == deps@);
                            }
                        }
                        return Err(cycle);
                    },
                    Ok(()) => {},
                }
                proof {
                    assert forall|budget: nat| budget >= measure implies Ok::<Seq<usize>, Seq<usize>>(
                        search.result@,
                    ) == #[trigger] visits_outcome(g, deps@.take(i + 1), result0, path1, budget) by {
                        assert(Ok::<Seq<usize>, Seq<usize>>(result1) == visits_outcome(
                            g,
                            deps@.take(i as int),
                            result0,
                            path1,
                            budget,
                        ));
                        assert(budget > smaller);
                        assert(Ok::<Seq<usize>, Seq<usize>>(search.result@) == visit_outcome(
                            g,
                            dep,
                            result1,
                            path1,
                            budget,
                        ));
                    }
                }
                i += 1;
            }
            proof {
                assert(deps@.take(deps@.len() as int) =~= deps@);
                assert(successors_of(g, node) == deps@);
            }
            assert(forall|v: usize| has_edge(g, node, v) ==> search.visited@.contains(v)) by {
                assert forall|v: usize| has_edge(g, node, v) implies search.visited@.contains(v) by {
                    let j = choose|j: int| 0 <= j < deps@.len() && deps@[j] == v;
                    assert(search.visited@.contains(deps@[j]));
                }
            }
        },
        None => {
            assert(successors_of(g, node) =~= Seq::empty());
        },
    }
    let ghost result1 = search.result@;
    let ghost visited1 = search.visited@;
    assert forall|budget: nat| budget > measure implies Ok::<Seq<usize>, Seq<usize>>(
        result1.push(node),
    ) == #[trigger] visit_outcome(g, node, result0, stack0, budget) by {
        let rest = (budget - 1) as nat;
        assert(rest >= measure);
        assert(Ok::<Seq<usize>, Seq<usize>>(result1) == visits_outcome(
            g,
            successors_of(g, node),
            result0,
            stack0.push(node),
            rest,
        ));
    }
    search.visiting.remove(&node);
    search.path.pop();
    search.visited.insert(node);
    search.result.push(node);
    proof {
        assert(search.path@ =~= stack0);
        lemma_push_to_set(stack0, node);
        assert(search.visiting@ =~= stack0.to_set()) by {
            assert(!stack0.to_set().contains(node));
        }
        let result2 = search.result@;
        assert(result2 == result1.push(node));
        assert(!result1.contains(node));
        assert forall|n: usize| search.visited@.contains(n) <==> result2.contains(n) by {
            if result1.contains(n) {
                let j = choose|j: int| 0 <= j < result1.len() && result1[j] == n;
                assert(result2[j] == n);
            }
            assert(result2[result1.len() as int] == node);
        }
        assert forall|i: int| 0 <= i < stack0.len() implies !search.visited@.contains(
            #[trigger] stack0[i],
        ) by {
            assert(stack0.push(node)[i] == stack0[i]);
            assert(stack0.push(node)[stack0.len() as int] == node);
        }
        assert forall|i: int| 0 <= i < stack0.len() - 1 implies has_edge(
            g,
            #[trigger] stack0[i],
            stack0[i + 1],
        ) by {
            assert(stack0.push(node)[i] == stack0[i]);
            assert(has_edge(g, stack0.push(node)[i], stack0.push(node)[i + 1]));
        }
        assert forall|i: int, v: usize| 0 <= i < result2.len() && #[trigger] has_edge(
            g,
            result2[i],
            v,
        ) implies placed_before(result2, v, i) by {
            if i < result1.len() {
                assert(has_edge(g, result1[i], v));
                assert(placed_before(result1, v, i));
                let j = choose|j: int| 0 <= j < i && result1[j] == v;
                assert(result2[j] == v);
            } else {
                assert(visited1.contains(v));
                assert(result1.contains(v));
                let j = choose|j: int| 0 <= j < result1.len() && result1[j] == v;
                assert(result2[j] == v);
            }
        }
        assert forall|i: int| 0 <= i < result2.len() implies is_node(g, #[trigger] result2[i]) by {
            if i < result1.len() {
                assert(result2[i] == result1[i]);
            }
        }
        assert(stack0.no_duplicates()) by {
            assert forall|i: int, j: int| 0 <= i < stack0.len() && 0 <= j < stack0.len() && i != j
                implies stack0[i] != stack0[j] by {
                assert(stack0.push(node)[i] == stack0[i]);
                assert(stack0.push(node)[j] == stack0[j]);
            }
        }
    }
    Ok(())
}

/// Orders the nodes of `graph` so that each stands after all of its
/// successors, or reports a cycle. Nodes are entered in the order of the
/// graph's keys, successors in the order of their sets.
pub fn topological_sort(graph: &EdgeMap) -> (r: Result<Vec<usize>, TopologicalSortError>)
    ensures
        match r {
            Ok(order) => {
                &&& is_topological_order(graph_map(*graph), order@)
                &&& order@ == depth_first_order(graph_map(*graph), crate::collections::graph_keys(*graph))
                &&& Ok::<Seq<usize>, Seq<usize>>(order@) == depth_first_search(
                    graph_map(*graph),
                    crate::collections::graph_keys(*graph),
                )
            },
            Err(TopologicalSortError::CycleDetected(cycle)) => {
                &&& is_cycle(graph_map(*graph), cycle@)
                &&& Err::<Seq<usize>, Seq<usize>>(cycle@) == depth_first_search(
                    graph_map(*graph),
                    crate::collections::graph_keys(*graph),
                )
            },
        },
        r is Ok <==> !has_cycle(graph_map(*graph)),
{
    let ghost g = graph_map(*graph);
    let keys = edge_map_keys(graph);
    let ghost budget = (keys@.len() + 1) as nat;
    proof {
        vstd::seq_lib::seq_to_set_is_finite(keys@);
        assert(g.dom() =~= keys@.to_set());
        keys@.lemma_cardinality_of_set();
        assert(g.dom().len() < budget);
    }
    let mut search = Search {
        visited: HashSet::new(),
        visiting: HashSet::new(),
        path: Vec::new(),
        result: Vec::new(),
    };
    assert(search.visiting@ =~= search.path@.to_set());
    let mut i: usize = 0;
    while i < keys.len()
        invariant
            i <= keys.len(),
            g == graph_map(*graph),
            keys@ == crate::collections::graph_keys(*graph),
            forall|k: usize| keys@.contains(k) <==> g.dom().contains(k),
            search.inv(g),
            search.path@.len() == 0,
            forall|j: int| 0 <= j < i ==> search.visited@.contains(keys@[j]),
            budget == keys@.len() + 1,
            g.dom().len() < budget,
            Ok::<Seq<usize>, Seq<usize>>(search.result@) == visits_outcome(
                g,
                keys@.take(i as int),
                Seq::empty(),
                Seq::empty(),
                budget,
            ),
        decreases keys.len() - i,
    {
        let node = keys[i];
        assert(keys@.contains(node));
        proof {
            assert(keys@.take(i + 1).drop_last() =~= keys@.take(i as int));
            assert(keys@.take(i + 1).last() == node);
            let left = unentered(g, search.visited@, search.path@);
            assert(left.subset_of(g.dom()));
            vstd::set_lib::lemma_len_subset(left, g.dom());
        }
        let ghost before = search.result@;
        assert(search.path@ =~= Seq::empty());
        match visit_node(node, graph, &mut search) {
            Err(cycle) => {
                proof {
                    assert(Err::<Seq<usize>, Seq<usize>>(cycle@) == visit_outcome(
                        g,
                        node,
                        before,
                        Seq::empty(),
                        budget,
                    ));
                    assert(visits_outcome(g, keys@.take(i + 1), Seq::empty(), Seq::empty(), budget) == Err::<
                        Seq<usize>,
                        Seq<usize>,
                    >(cycle@));
                    lemma_cycle_ends_the_search(g, keys@, i + 1, Seq::empty(), Seq::empty(), budget);
                }
                return Err(TopologicalSortError::CycleDetected(cycle));
            },
            Ok(()) => {},
        }
        proof {
            assert(Ok::<Seq<usize>, Seq<usize>>(search.result@) == visit_outcome(
                g,
                node,
                before,
                Seq::empty(),
                budget,
            ));
            assert(keys@.take(i + 1).len() > 0);
        }
        i += 1;
    }
    proof {
        let order = search.result@;
        assert(keys@.take(keys@.len() as int) =~= keys@);
        assert forall|n: usize| order.contains(n) <==> is_node(g, n) by {
            if order.contains(n) {
                let j = choose|j: int| 0 <= j < order.len() && order[j] == n;
                assert(is_node(g, order[j]));
            }
            if is_node(g, n) {
                if g.dom().contains(n) {
                    assert(keys@.contains(n));
                    let j = choose|j: int| 0 <= j < keys@.len() && keys@[j] == n;
                    assert(search.visited@.contains(keys@[j]));
                } else {
                    let u = choose|u: usize| has_edge(g, u, n);
                    assert(keys@.contains(u));
                    let j = choose|j: int| 0 <= j < keys@.len() && keys@[j] == u;
                    assert(search.visited@.contains(keys@[j]));
                    assert(order.contains(u));
                    let k = choose|k: int| 0 <= k < order.len() && order[k] == u;
                    assert(has_edge(g, order[k], n));
                    assert(placed_before(order, n, k));
                }
            }
        }
        lemma_ordered_graph_is_acyclic(g, order);
    }
    Ok(search.result)
}

} // verus!
