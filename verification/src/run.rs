//! Running a task: ordering its dependencies and executing them.

use crate::collections::{env_members, graph_keys, graph_map, lemma_without, without};
use crate::json::Json;
use crate::run::dependency_resolution::topological_sort::{
    has_edge, is_cycle, is_node, is_topological_order, topological_sort,
};
use crate::run::dependency_resolution::topological_sort::{
    depth_first_order, depth_first_search, has_cycle,
};
use crate::run::dependency_resolution::{
    are_targets, build_dependency_graph, is_construction_fault, is_expanded, is_graph_of,
    is_instantiation_of, is_node_of, is_plain_leaf, is_stuck_at_root, lemma_closed_imports,
    lemma_import_resolved, node_views, ordered_set, DependencyGraph,
    DependencyGraphConstructionError, NodeView, TopologicalSortError,
};
use crate::run::execution::scheduler::Scheduler;
use crate::run::execution::{
    all_inside, clean_instantiated_task, clean_planned, clean_single_task, CleanPlan,
    TaskExecutionError,
};
use crate::paths::path_within;
use crate::strmap::StrMap;
use crate::task::instantiation::{body_instantiated, instantiable, InstantiationError};
use crate::task::invocation::{resolved_view, TaskInvocation};
use crate::task::task::InstantiatedTask;
use crate::task::instantiation::task_context;
use crate::task::{layer_env, layered};
use crate::task::task_ref::TaskRef;
use crate::task::taskfile::Taskfile;
use crate::task::workspace::{resolves_to, Workspace};
use crate::template::{kept, Engine, Renderings};
use vstd::prelude::*;

pub mod default_run_manager;
pub mod dependency_resolution;
pub mod execution;
pub mod parallel_run_manager;

verus! {

/// Why a run or a clean could not be carried out.
#[derive(Debug)]
pub enum RunError {
    DependencyGraphConstructionError(DependencyGraphConstructionError),
    ExecutionError(TaskExecutionError),
    TopologicalSortError(TopologicalSortError),
    /// The reference does not resolve to a task.
    TaskNotFound(TaskRef),
    InstantiationError(InstantiationError),
    BeginTaskError(String),
    EnterTaskError(String),
    /// The run was asked to stop before every task had been started.
    Interrupted,
}

/// What a set of successors holds is among what was put into it.
pub proof fn lemma_ordered_set_members(targets: Seq<usize>, x: usize)
    requires
        ordered_set(targets).contains(x),
    ensures
        targets.contains(x),
    decreases targets.len(),
{
    if targets.len() > 0 {
        let before = ordered_set(targets.drop_last());
        let last = targets.last();
        lemma_without(before, last);
        let all = without(before, last).push(last);
        let i = choose|i: int| 0 <= i < all.len() && all[i] == x;
        if i < without(before, last).len() {
            assert(without(before, last)[i] == x);
            assert(without(before, last).contains(x));
            lemma_ordered_set_members(targets.drop_last(), x);
            let j = choose|j: int| 0 <= j < targets.drop_last().len() && targets.drop_last()[j] == x;
            assert(targets[j] == x);
        } else {
            assert(targets[targets.len() - 1] == x);
        }
    }
}

/// The nodes of the graph of a well-formed dependency graph are the
/// numbers of its node table.
pub proof fn lemma_graph_nodes(graph: DependencyGraph, engine: Renderings, ws: Workspace, k: usize)
    requires
        graph.wf(engine, ws),
    ensures
        is_node(graph_map(graph.edges), k) <==> k < graph.nodes@.len(),
{
    let g = graph_map(graph.edges);
    if is_node(g, k) && !g.dom().contains(k) {
        let u = choose|u: usize| has_edge(g, u, k);
        assert(u < graph.nodes@.len());
        assert(is_expanded(
            ws,
            node_views(graph.nodes@),
            graph.nodes@[u as int],
            graph.instantiations@[u as int],
            g[u],
        ));
        let targets = choose|targets: Seq<usize>| #[trigger]
            are_targets(
                ws,
                node_views(graph.nodes@),
                graph.nodes@[u as int],
                graph.instantiations@[u as int],
                targets,
            ) && g[u] == ordered_set(targets);
        lemma_ordered_set_members(targets, k);
        let j = choose|j: int| 0 <= j < targets.len() && targets[j] == k;
        assert(targets[j] < node_views(graph.nodes@).len());
    }
}

/// The order in which the tasks of a graph run: every node once, each
/// after all the nodes that it depends on. Fails where the graph has a cycle.
fn execution_order(graph: &DependencyGraph, Ghost(engine): Ghost<Renderings>, Ghost(ws): Ghost<
    Workspace,
>) -> (r: Result<Vec<usize>, TopologicalSortError>)
    requires
        graph.wf(engine, ws),
    ensures
        match r {
            Ok(order) => is_topological_order(graph_map(graph.edges), order@) && order@.len()
                == graph.nodes@.len() && order@ == depth_first_order(
                graph_map(graph.edges),
                graph_keys(graph.edges),
            ) && forall|k: usize| order@.contains(k) <==> k < graph.nodes@.len(),
            Err(TopologicalSortError::CycleDetected(cycle)) => is_cycle(graph_map(graph.edges), cycle@)
                && Err::<Seq<usize>, Seq<usize>>(cycle@) == depth_first_search(
                graph_map(graph.edges),
                graph_keys(graph.edges),
            ),
        },
        r is Ok <==> !has_cycle(graph_map(graph.edges)),
{
    let n = graph.nodes.len();
    match topological_sort(&graph.edges) {
        Ok(order) => {
            proof {
                assert(n <= usize::MAX);
                assert forall|k: usize| order@.contains(k) <==> k < graph.nodes@.len() by {
                    lemma_graph_nodes(*graph, engine, ws, k);
                }
                lemma_permutation_len(order@, graph.nodes@.len());
            }
            Ok(order)
        },
        Err(e) => Err(e),
    }
}

/// A list that holds each number below `n` once, and nothing else, has `n` items.
pub proof fn lemma_permutation_len(order: Seq<usize>, n: nat)
    requires
        order.no_duplicates(),
        forall|k: usize| order.contains(k) <==> k < n,
        n <= usize::MAX,
    ensures
        order.len() == n,
{
    let all = Set::new(|k: usize| k < n);
    assert(order.to_set() =~= all);
    order.unique_seq_to_set();
    lemma_below_len(n);
}

/// There are `n` numbers below `n`.
pub proof fn lemma_below_len(n: nat)
    requires
        n <= usize::MAX,
    ensures
        Set::new(|k: usize| k < n).finite(),
        Set::new(|k: usize| k < n).len() == n,
    decreases n,
{
    let s = Set::new(|k: usize| k < n);
    if n == 0 {
        assert(s =~= Set::empty());
    } else {
        let m = (n - 1) as nat;
        lemma_below_len(m);
        let t = Set::new(|k: usize| k < m);
        assert(s =~= t.insert(m as usize));
    }
}

/// A graph of one node without successors has no cycle.
pub proof fn lemma_single_node_is_acyclic(g: Map<usize, Seq<usize>>)
    requires
        forall|k: usize| g.dom().contains(k) <==> k < 1,
        g[0].len() == 0,
    ensures
        !has_cycle(g),
{
    if has_cycle(g) {
        let p = choose|p: Seq<usize>| is_cycle(g, p);
        let first: int = 0;
        assert(has_edge(g, p[first], p[first + 1]));
        let i = choose|i: int| 0 <= i < g[p[0]].len() && g[p[0]][i] == p[1];
    }
}

/// `cycle` walks a cycle of a graph of everything that `req` needs: the
/// first that a depth-first search of the graph closes.
pub open spec fn is_cycle_of(
    engine: Renderings,
    ws: Workspace,
    current: Taskfile,
    req: TaskInvocation<TaskRef>,
    cycle: Seq<usize>,
) -> bool {
    exists|graph: DependencyGraph| #[trigger]
        is_graph_of(engine, ws, current, req, graph) && is_cycle(graph_map(graph.edges), cycle) && Err::<
            Seq<usize>,
            Seq<usize>,
        >(cycle) == depth_first_search(graph_map(graph.edges), graph_keys(graph.edges))
}

/// The number in `g` of the node `v`.
pub open spec fn number_in(g: DependencyGraph, v: NodeView) -> int {
    choose|j: int| 0 <= j < g.nodes@.len() && #[trigger] node_views(g.nodes@)[j] == v
}

/// An edge of one graph of an invocation is an edge of every other, between
/// the nodes that are the same invocations.
pub proof fn lemma_edge_carries_over(
    engine: Renderings,
    ws: Workspace,
    a: DependencyGraph,
    b: DependencyGraph,
    u: usize,
    v: usize,
)
    requires
        a.wf(engine, ws),
        b.wf(engine, ws),
        has_edge(graph_map(a.edges), u, v),
        is_node_of(b, node_views(a.nodes@)[u as int]),
    ensures
        v < a.nodes@.len(),
        is_node_of(b, node_views(a.nodes@)[v as int]),
        has_edge(
            graph_map(b.edges),
            number_in(b, node_views(a.nodes@)[u as int]) as usize,
            number_in(b, node_views(a.nodes@)[v as int]) as usize,
        ),
{
    let views_a = node_views(a.nodes@);
    let views_b = node_views(b.nodes@);
    let na = a.nodes@[u as int];
    let ia = a.instantiations@[u as int];
    assert(is_expanded(ws, views_a, na, ia, graph_map(a.edges)[u]));
    let targets_a = choose|targets: Seq<usize>| #[trigger]
        are_targets(ws, views_a, na, ia, targets) && graph_map(a.edges)[u] == ordered_set(targets);
    lemma_ordered_set_members(targets_a, v);
    let t = choose|t: int| 0 <= t < targets_a.len() && targets_a[t] == v;
    assert(targets_a[t] < views_a.len());
    let twin = number_in(b, views_a[u as int]);
    let nb = b.nodes@[twin];
    let ib = b.instantiations@[twin];
    assert(views_b[twin] == views_a[u as int]);
    assert(resolved_view(nb) == resolved_view(na));
    let tf = ws.taskfile(na.reference.taskfile@);
    let task = tf.tasks.at(na.reference.name@);
    assert(is_instantiation_of(engine, ws, na, ia));
    assert(is_instantiation_of(engine, ws, nb, ib));
    let env_a = choose|env: StrMap<Json>| #[trigger]
        layered(tf.env, env_members(task.body.env), env) && body_instantiated(
            engine,
            task.body,
            task_context(task, na.args, env),
            ia.body,
        );
    let env_b = choose|env: StrMap<Json>| #[trigger]
        layered(tf.env, env_members(task.body.env), env) && body_instantiated(
            engine,
            task.body,
            task_context(task, nb.args, env),
            ib.body,
        );
    crate::task::lemma_layered_same(tf.env, env_members(task.body.env), env_a, env_b);
    crate::task::instantiation::lemma_same_context(task, na.args, nb.args, env_a);
    let context = task_context(task, na.args, env_a);
    assert(task_context(task, nb.args, env_b) == context);
    crate::task::instantiation::lemma_same_dependencies(engine, task.body, context, ia.body, ib.body);
    assert(is_expanded(ws, views_b, nb, ib, graph_map(b.edges)[twin as usize]));
    let targets_b = choose|targets: Seq<usize>| #[trigger]
        are_targets(ws, views_b, nb, ib, targets) && graph_map(b.edges)[twin as usize] == ordered_set(
            targets,
        );
    assert(targets_b[t] < views_b.len());
    assert(ia.body.deps.0@[t].invocation.reference@ == ib.body.deps.0@[t].invocation.reference@);
    assert(crate::run::dependency_resolution::dep_target(ws, tf, ia.body.deps.0@[t])
        == crate::run::dependency_resolution::dep_target(ws, tf, ib.body.deps.0@[t]));
    assert(views_b[targets_b[t] as int] == views_a[v as int]);
    assert(targets_b.contains(targets_b[t]));
    crate::run::dependency_resolution::lemma_ordered_set_holds(targets_b, targets_b[t]);
    assert(number_in(b, views_a[v as int]) == targets_b[t]);
}

/// The same invocation has, in two graphs, instantiations with the same
/// outputs.
pub proof fn lemma_same_outputs(
    engine: Renderings,
    ws: Workspace,
    a: DependencyGraph,
    b: DependencyGraph,
    u: usize,
)
    requires
        a.wf(engine, ws),
        b.wf(engine, ws),
        u < a.nodes@.len(),
        is_node_of(b, node_views(a.nodes@)[u as int]),
    ensures
        crate::run::execution::resolved_paths(a.instantiations@[u as int])
            == crate::run::execution::resolved_paths(
            b.instantiations@[number_in(b, node_views(a.nodes@)[u as int])],
        ),
{
    let views_a = node_views(a.nodes@);
    let na = a.nodes@[u as int];
    let ia = a.instantiations@[u as int];
    let twin = number_in(b, views_a[u as int]);
    let nb = b.nodes@[twin];
    let ib = b.instantiations@[twin];
    assert(node_views(b.nodes@)[twin] == views_a[u as int]);
    assert(resolved_view(nb) == resolved_view(na));
    let tf = ws.taskfile(na.reference.taskfile@);
    let task = tf.tasks.at(na.reference.name@);
    assert(is_instantiation_of(engine, ws, na, ia));
    assert(is_instantiation_of(engine, ws, nb, ib));
    let env_a = choose|env: StrMap<Json>| #[trigger]
        layered(tf.env, env_members(task.body.env), env) && body_instantiated(
            engine,
            task.body,
            task_context(task, na.args, env),
            ia.body,
        );
    let env_b = choose|env: StrMap<Json>| #[trigger]
        layered(tf.env, env_members(task.body.env), env) && body_instantiated(
            engine,
            task.body,
            task_context(task, nb.args, env),
            ib.body,
        );
    crate::task::lemma_layered_same(tf.env, env_members(task.body.env), env_a, env_b);
    crate::task::instantiation::lemma_same_context(task, na.args, nb.args, env_a);
    let context = task_context(task, na.args, env_a);
    assert(task_context(task, nb.args, env_b) == context);
    assert(ia.body.workdir@ == ib.body.workdir@);
    assert(crate::task::task::outputs_rendered(
        engine,
        task.body.outputs.paths@,
        context,
        ia.body.outputs.paths@,
    ));
    assert(crate::task::task::outputs_rendered(
        engine,
        task.body.outputs.paths@,
        context,
        ib.body.outputs.paths@,
    ));
    assert forall|i: int| 0 <= i < ia.body.outputs.paths@.len() implies ia.body.outputs.paths@[i].path()
        == ib.body.outputs.paths@[i].path() by {
        assert(crate::template::renders_to(
            engine,
            task.body.outputs.paths@[i].path(),
            context,
            ia.body.outputs.paths@[i].path(),
        ));
        assert(crate::template::renders_to(
            engine,
            task.body.outputs.paths@[i].path(),
            context,
            ib.body.outputs.paths@[i].path(),
        ));
    }
    assert(crate::run::execution::resolved_paths(ia) =~= crate::run::execution::resolved_paths(ib));
}

/// Every node of one graph of an invocation is a node of every other.
pub proof fn lemma_nodes_carry_over(
    engine: Renderings,
    ws: Workspace,
    current: Taskfile,
    req: TaskInvocation<TaskRef>,
    a: DependencyGraph,
    b: DependencyGraph,
    k: usize,
)
    requires
        is_graph_of(engine, ws, current, req, a),
        is_graph_of(engine, ws, current, req, b),
        k < a.nodes@.len(),
    ensures
        is_node_of(b, node_views(a.nodes@)[k as int]),
    decreases k,
{
    if k == 0 {
        assert(node_views(b.nodes@)[0] == node_views(a.nodes@)[0]);
    } else {
        let g = graph_map(a.edges);
        assert(crate::run::dependency_resolution::all_needed(g, a.nodes@.len()));
        assert(crate::run::dependency_resolution::is_needed(g, k));
        let j = choose|j: usize| j < k && g.dom().contains(j) && (#[trigger] g[j]).contains(k);
        lemma_nodes_carry_over(engine, ws, current, req, a, b, j);
        assert(has_edge(g, j, k));
        lemma_edge_carries_over(engine, ws, a, b, j, k);
    }
}

/// Where one graph of an invocation has a cycle, every other has one.
pub proof fn lemma_cycle_carries_over(
    engine: Renderings,
    ws: Workspace,
    current: Taskfile,
    req: TaskInvocation<TaskRef>,
    a: DependencyGraph,
    b: DependencyGraph,
)
    requires
        is_graph_of(engine, ws, current, req, a),
        is_graph_of(engine, ws, current, req, b),
        has_cycle(graph_map(a.edges)),
    ensures
        has_cycle(graph_map(b.edges)),
{
    let p = choose|p: Seq<usize>| is_cycle(graph_map(a.edges), p);
    let views_a = node_views(a.nodes@);
    let q = Seq::new(p.len(), |i: int| number_in(b, views_a[p[i] as int]) as usize);
    assert forall|i: int| 0 <= i < q.len() - 1 implies has_edge(graph_map(b.edges), #[trigger] q[i], q[i + 1]) by {
        assert(has_edge(graph_map(a.edges), p[i], p[i + 1]));
        assert(p[i] < a.nodes@.len());
        lemma_nodes_carry_over(engine, ws, current, req, a, b, p[i]);
        lemma_edge_carries_over(engine, ws, a, b, p[i], p[i + 1]);
    }
    assert(q[0] == q[q.len() - 1]);
    assert(is_cycle(graph_map(b.edges), q));
}

/// There is a graph of everything that `req` needs: every reference that
/// is needed resolves, and every task that is needed can be instantiated.
pub open spec fn has_graph(
    engine: Renderings,
    ws: Workspace,
    current: Taskfile,
    req: TaskInvocation<TaskRef>,
) -> bool {
    exists|g: DependencyGraph| #[trigger] is_graph_of(engine, ws, current, req, g)
}

/// `req` can be run: there is a graph of everything that it needs, and
/// it has no cycle.
pub open spec fn is_runnable(
    engine: Renderings,
    ws: Workspace,
    current: Taskfile,
    req: TaskInvocation<TaskRef>,
) -> bool {
    exists|g: DependencyGraph| #[trigger]
        is_graph_of(engine, ws, current, req, g) && !has_cycle(graph_map(g.edges))
}

/// `e` tells of the first output of the task of the node `k` of `g`, a
/// graph of everything that `req` needs, that does not lie under the
/// directory of `current`.
pub open spec fn fails_to_clean(
    engine: Renderings,
    ws: Workspace,
    current: Taskfile,
    req: TaskInvocation<TaskRef>,
    g: DependencyGraph,
    k: int,
    e: TaskExecutionError,
) -> bool {
    &&& is_graph_of(engine, ws, current, req, g)
    &&& 0 <= k < g.nodes@.len()
    &&& e is OutputOutsideTaskfile
    &&& clean_planned(current, g.instantiations@[k], Err(e))
}

/// The outputs of every task of a graph lie under the directory of
/// `current`.
pub open spec fn all_outputs_inside(current: Taskfile, g: DependencyGraph) -> bool {
    forall|k: int| 0 <= k < g.nodes@.len() ==> #[trigger] all_inside(g.instantiations@[k], current.dir@)
}

/// `req` can be cleaned: there is a graph of everything that it needs, it
/// has no cycle, and the outputs of all of its tasks lie under the
/// directory of `current`.
pub open spec fn is_cleanable(
    engine: Renderings,
    ws: Workspace,
    current: Taskfile,
    req: TaskInvocation<TaskRef>,
) -> bool {
    exists|g: DependencyGraph| #[trigger]
        is_graph_of(engine, ws, current, req, g) && !has_cycle(graph_map(g.edges))
            && all_outputs_inside(current, g)
}

/// A sequential run: the tasks of a graph one after the other.
#[derive(Debug)]
pub struct SequentialRun {
    order: Vec<usize>,
    next: usize,
}

/// What a sequential run does next.
#[derive(Debug, PartialEq, Eq)]
pub enum SequentialStep {
    /// It is the turn of the task of this node.
    Run(usize),
    /// The run was asked to stop before every task had had its turn.
    Interrupted,
    /// Every task has had its turn.
    Done,
}

impl SequentialRun {
    /// The nodes in the order of their turns.
    pub closed spec fn order(&self) -> Seq<usize> {
        self.order@
    }

    /// How many tasks have had their turn.
    pub closed spec fn position(&self) -> nat {
        self.next as nat
    }

    pub closed spec fn wf(&self) -> bool {
        self.next <= self.order@.len()
    }

    /// A run of the tasks in this order.
    pub fn new(order: Vec<usize>) -> (r: Self)
        ensures
            r.wf(),
            r.order() == order@,
            r.position() == 0,
    {
        SequentialRun { order, next: 0 }
    }

    /// Whose turn it is. `running` is false once the run has been asked to
    /// stop; the run then ends as interrupted, unless every task has had its
    /// turn already.
    pub fn next_task(&mut self, running: bool) -> (r: SequentialStep)
        requires
            old(self).wf(),
        ensures
            final(self).wf(),
            final(self).order() == old(self).order(),
            match r {
                SequentialStep::Done => old(self).position() == old(self).order().len()
                    && final(self).position() == old(self).position(),
                SequentialStep::Interrupted => !running && old(self).position() < old(self).order().len()
                    && final(self).position() == old(self).position(),
                SequentialStep::Run(node) => running && old(self).position() < old(self).order().len()
                    && node == old(self).order()[old(self).position() as int] && final(self).position()
                    == old(self).position() + 1,
            },
    {
        if self.next >= self.order.len() {
            SequentialStep::Done
        } else if !running {
            SequentialStep::Interrupted
        } else {
            let node = self.order[self.next];
            self.next = self.next + 1;
            SequentialStep::Run(node)
        }
    }
}

/// Prepares the run of `req`, one task after the other: builds the graph of
/// what `req` needs and puts its tasks in an order in which each comes
/// after all that it depends on.
pub fn run(handlebars: &mut Engine, workspace: &Workspace, current: &Taskfile, req: &TaskInvocation<
    TaskRef,
>) -> (r: Result<(DependencyGraph, SequentialRun), RunError>)
    requires
        old(handlebars).wf(),
        workspace.wf(),
        workspace.closed(),
        workspace.has(current.id@),
        workspace.taskfile(current.id@) == *current,
        req.args.wf(),
    ensures
        final(handlebars).wf(),
        kept(old(handlebars)@, final(handlebars)@),
        match r {
            Ok((graph, run)) => {
                &&& is_graph_of(final(handlebars)@, *workspace, *current, *req, graph)
                &&& run.wf()
                &&& run.position() == 0
                &&& is_topological_order(graph_map(graph.edges), run.order())
                &&& run.order() == depth_first_order(graph_map(graph.edges), graph_keys(graph.edges))
                &&& forall|k: usize| run.order().contains(k) <==> k < graph.nodes@.len()
            },
            Err(RunError::TopologicalSortError(TopologicalSortError::CycleDetected(cycle))) => is_cycle_of(
                final(handlebars)@,
                *workspace,
                *current,
                *req,
                cycle@,
            ),
            Err(RunError::DependencyGraphConstructionError(e)) => is_construction_fault(
                final(handlebars)@,
                *workspace,
                *current,
                *req,
                e,
            ),
            Err(_) => false,
        },
        resolves_to(*workspace, *current, req.reference@) is None ==> r matches Err(
            RunError::DependencyGraphConstructionError(_),
        ),
        is_stuck_at_root(final(handlebars)@, *workspace, *current, *req) ==> r matches Err(
            RunError::DependencyGraphConstructionError(DependencyGraphConstructionError::InstantiationError(_)),
        ),
        r matches Err(RunError::DependencyGraphConstructionError(_)) <==> !has_graph(
            final(handlebars)@,
            *workspace,
            *current,
            *req,
        ),
        r is Ok <==> is_runnable(final(handlebars)@, *workspace, *current, *req),
        is_plain_leaf(*workspace, *current, *req) ==> (r matches Ok((graph, run))
            && run.order() == seq![0usize]),
{
    let graph = match build_dependency_graph(handlebars, workspace, current, req) {
        Ok(g) => g,
        Err(e) => {
            return Err(RunError::DependencyGraphConstructionError(e));
        },
    };
    proof {
        if is_runnable(handlebars@, *workspace, *current, *req) && has_cycle(graph_map(graph.edges)) {
            let other = choose|g: DependencyGraph| #[trigger]
                is_graph_of(handlebars@, *workspace, *current, *req, g) && !has_cycle(
                    graph_map(g.edges),
                );
            lemma_cycle_carries_over(handlebars@, *workspace, *current, *req, graph, other);
        }
    }
    proof {
        if is_plain_leaf(*workspace, *current, *req) {
            lemma_single_node_is_acyclic(graph_map(graph.edges));
        }
    }
    let order = match execution_order(&graph, Ghost(handlebars@), Ghost(*workspace)) {
        Ok(o) => o,
        Err(e) => {
            return Err(RunError::TopologicalSortError(e));
        },
    };
    proof {
        if is_plain_leaf(*workspace, *current, *req) {
            assert(order@.contains(0usize));
            assert(order@[0] == 0) by {
                assert(order@.contains(order@[0]));
            }
            assert(order@ =~= seq![0usize]);
        }
    }
    Ok((graph, SequentialRun::new(order)))
}

/// Prepares the run of `req` with up to `max_concurrency` tasks at a time:
/// builds the graph of what `req` needs and a scheduler that starts a task
/// only after all that it depends on has finished.
pub fn run_parallel(
    handlebars: &mut Engine,
    workspace: &Workspace,
    current: &Taskfile,
    req: &TaskInvocation<TaskRef>,
    max_concurrency: usize,
) -> (r: Result<(DependencyGraph, Scheduler), RunError>)
    requires
        old(handlebars).wf(),
        workspace.wf(),
        workspace.closed(),
        workspace.has(current.id@),
        workspace.taskfile(current.id@) == *current,
        req.args.wf(),
        max_concurrency > 0,
    ensures
        final(handlebars).wf(),
        kept(old(handlebars)@, final(handlebars)@),
        match r {
            Ok((graph, scheduler)) => {
                &&& is_graph_of(final(handlebars)@, *workspace, *current, *req, graph)
                &&& scheduler.wf()
                &&& scheduler.limit() == max_concurrency
                &&& is_topological_order(graph_map(graph.edges), scheduler.pending())
                &&& scheduler.pending() == depth_first_order(
                    graph_map(graph.edges),
                    graph_keys(graph.edges),
                )
                &&& scheduler.running() =~= Set::empty()
                &&& scheduler.finished() =~= Set::empty()
                &&& scheduler.failures() =~= Seq::empty()
                &&& scheduler.waiting_for() == scheduler.deps()
                &&& scheduler.deps().dom() == scheduler.pending().to_set()
                &&& !scheduler.draining()
                &&& !scheduler.interrupted()
                &&& !scheduler.stalled()
                &&& scheduler.ordered()
                &&& forall|t: usize|
                    t < graph.nodes@.len() ==> #[trigger] scheduler.deps()[t]
                        == crate::run::execution::scheduler::deps_in(graph_map(graph.edges), t)
            },
            Err(RunError::TopologicalSortError(TopologicalSortError::CycleDetected(cycle))) => is_cycle_of(
                final(handlebars)@,
                *workspace,
                *current,
                *req,
                cycle@,
            ),
            Err(RunError::DependencyGraphConstructionError(e)) => is_construction_fault(
                final(handlebars)@,
                *workspace,
                *current,
                *req,
                e,
            ),
            Err(_) => false,
        },
        resolves_to(*workspace, *current, req.reference@) is None ==> r matches Err(
            RunError::DependencyGraphConstructionError(_),
        ),
        is_stuck_at_root(final(handlebars)@, *workspace, *current, *req) ==> r matches Err(
            RunError::DependencyGraphConstructionError(DependencyGraphConstructionError::InstantiationError(_)),
        ),
        r matches Err(RunError::DependencyGraphConstructionError(_)) <==> !has_graph(
            final(handlebars)@,
            *workspace,
            *current,
            *req,
        ),
        r is Ok <==> is_runnable(final(handlebars)@, *workspace, *current, *req),
        is_plain_leaf(*workspace, *current, *req) ==> (r matches Ok((graph, scheduler))
            && scheduler.pending() == seq![0usize]),
{
    let graph = match build_dependency_graph(handlebars, workspace, current, req) {
        Ok(g) => g,
        Err(e) => {
            return Err(RunError::DependencyGraphConstructionError(e));
        },
    };
    proof {
        if is_runnable(handlebars@, *workspace, *current, *req) && has_cycle(graph_map(graph.edges)) {
            let other = choose|g: DependencyGraph| #[trigger]
                is_graph_of(handlebars@, *workspace, *current, *req, g) && !has_cycle(
                    graph_map(g.edges),
                );
            lemma_cycle_carries_over(handlebars@, *workspace, *current, *req, graph, other);
        }
    }
    proof {
        if is_plain_leaf(*workspace, *current, *req) {
            lemma_single_node_is_acyclic(graph_map(graph.edges));
        }
    }
    let order = match execution_order(&graph, Ghost(handlebars@), Ghost(*workspace)) {
        Ok(o) => o,
        Err(e) => {
            return Err(RunError::TopologicalSortError(e));
        },
    };
    proof {
        if is_plain_leaf(*workspace, *current, *req) {
            assert(order@.contains(0usize));
            assert(order@[0] == 0) by {
                assert(order@.contains(order@[0]));
            }
            assert(order@ =~= seq![0usize]);
        }
    }
    let scheduler = Scheduler::new(max_concurrency, order, &graph.edges);
    Ok((graph, scheduler))
}

/// The cleaning of a task and of everything that it needs.
pub struct CleanRun {
    /// The graph of what is cleaned.
    pub graph: DependencyGraph,
    /// The nodes in the order in which they are cleaned: the task that was
    /// asked for first, every task before all that it depends on.
    pub order: Vec<usize>,
    /// The plan of each node, in the same order.
    pub plans: Vec<CleanPlan>,
}

/// Where a task of one graph of an invocation has an output outside the
/// directory of `current`, the invocation cannot be cleaned.
pub proof fn lemma_outside_is_not_cleanable(
    engine: Renderings,
    ws: Workspace,
    current: Taskfile,
    req: TaskInvocation<TaskRef>,
    graph: DependencyGraph,
    node: usize,
)
    requires
        is_graph_of(engine, ws, current, req, graph),
        node < graph.nodes@.len(),
        !all_inside(graph.instantiations@[node as int], current.dir@),
    ensures
        !is_cleanable(engine, ws, current, req),
{
    if is_cleanable(engine, ws, current, req) {
        let other = choose|g: DependencyGraph| #[trigger]
            is_graph_of(engine, ws, current, req, g) && !has_cycle(graph_map(g.edges))
                && all_outputs_inside(current, g);
        lemma_nodes_carry_over(engine, ws, current, req, graph, other, node);
        lemma_same_outputs(engine, ws, graph, other, node);
        let twin = number_in(other, node_views(graph.nodes@)[node as int]);
        assert(all_inside(other.instantiations@[twin], current.dir@));
    }
}

/// Where one graph of an invocation has a cycle, the invocation can be
/// neither run nor cleaned.
pub proof fn lemma_cycle_is_not_runnable(
    engine: Renderings,
    ws: Workspace,
    current: Taskfile,
    req: TaskInvocation<TaskRef>,
    graph: DependencyGraph,
)
    requires
        is_graph_of(engine, ws, current, req, graph),
        has_cycle(graph_map(graph.edges)),
    ensures
        !is_runnable(engine, ws, current, req),
        !is_cleanable(engine, ws, current, req),
{
    if is_runnable(engine, ws, current, req) {
        let other = choose|g: DependencyGraph| #[trigger]
            is_graph_of(engine, ws, current, req, g) && !has_cycle(graph_map(g.edges));
        lemma_cycle_carries_over(engine, ws, current, req, graph, other);
    }
    if is_cleanable(engine, ws, current, req) {
        let other = choose|g: DependencyGraph| #[trigger]
            is_graph_of(engine, ws, current, req, g) && !has_cycle(graph_map(g.edges))
                && all_outputs_inside(current, g);
        lemma_cycle_carries_over(engine, ws, current, req, graph, other);
    }
}

/// A graph without a cycle, of whose tasks every one has a plan, shows
/// that the invocation can be cleaned.
pub proof fn lemma_planned_is_cleanable(
    engine: Renderings,
    ws: Workspace,
    current: Taskfile,
    req: TaskInvocation<TaskRef>,
    graph: DependencyGraph,
    order: Seq<usize>,
    plans: Seq<CleanPlan>,
)
    requires
        is_graph_of(engine, ws, current, req, graph),
        !has_cycle(graph_map(graph.edges)),
        graph.nodes@.len() <= usize::MAX,
        plans.len() == order.len(),
        forall|n: usize| n < graph.nodes@.len() ==> order.contains(n),
        forall|k: int|
            0 <= k < order.len() ==> (#[trigger] order[k]) < graph.nodes@.len() && clean_planned(
                current,
                graph.instantiations@[order[k] as int],
                Ok(plans[k]),
            ),
    ensures
        is_cleanable(engine, ws, current, req),
{
    assert forall|k: int| 0 <= k < graph.nodes@.len() implies #[trigger] all_inside(
        graph.instantiations@[k],
        current.dir@,
    ) by {
        let m = k as usize;
        assert(m as int == k);
        assert(order.contains(m));
        let p = choose|p: int| 0 <= p < order.len() && order[p] == m;
        assert(clean_planned(current, graph.instantiations@[order[p] as int], Ok(plans[p])));
    }
    assert(all_outputs_inside(current, graph));
}

/// Plans the cleaning of `req` and of everything that it needs, the task
/// that was asked for first and what it depends on after it. Where an
/// output of any of the tasks does not lie under the directory of
/// `current`, there is no plan at all: cleaning never removes anything
/// outside that directory.
pub fn clean(handlebars: &mut Engine, workspace: &Workspace, current: &Taskfile, req: &TaskInvocation<
    TaskRef,
>) -> (r: Result<CleanRun, RunError>)
    requires
        old(handlebars).wf(),
        workspace.wf(),
        workspace.closed(),
        workspace.has(current.id@),
        workspace.taskfile(current.id@) == *current,
        req.args.wf(),
    ensures
        final(handlebars).wf(),
        kept(old(handlebars)@, final(handlebars)@),
        match r {
            Ok(run) => {
                &&& is_graph_of(final(handlebars)@, *workspace, *current, *req, run.graph)
                &&& is_topological_order(graph_map(run.graph.edges), run.order@.reverse())
                &&& run.order@.reverse() == depth_first_order(
                    graph_map(run.graph.edges),
                    graph_keys(run.graph.edges),
                )
                &&& run.plans@.len() == run.order@.len()
                &&& run.order@.len() == run.graph.nodes@.len()
                &&& forall|k: int|
                    0 <= k < run.order@.len() ==> (#[trigger] run.order@[k]) < run.graph.nodes@.len()
                        && clean_planned(
                        *current,
                        run.graph.instantiations@[run.order@[k] as int],
                        Ok(run.plans@[k]),
                    )
                &&& forall|i: int, j: int|
                    0 <= i < run.plans@.len() && 0 <= j < run.plans@[i].removals@.len() ==> path_within(
                        (#[trigger] run.plans@[i].removals@[j]).path(),
                        current.dir@,
                    )
            },
            Err(RunError::TopologicalSortError(TopologicalSortError::CycleDetected(cycle))) => is_cycle_of(
                final(handlebars)@,
                *workspace,
                *current,
                *req,
                cycle@,
            ),
            Err(RunError::DependencyGraphConstructionError(e)) => is_construction_fault(
                final(handlebars)@,
                *workspace,
                *current,
                *req,
                e,
            ),
            Err(RunError::ExecutionError(e)) => exists|g: DependencyGraph, k: int| #[trigger]
                fails_to_clean(final(handlebars)@, *workspace, *current, *req, g, k, e),
            Err(_) => false,
        },
        resolves_to(*workspace, *current, req.reference@) is None ==> r matches Err(
            RunError::DependencyGraphConstructionError(_),
        ),
        is_stuck_at_root(final(handlebars)@, *workspace, *current, *req) ==> r matches Err(
            RunError::DependencyGraphConstructionError(DependencyGraphConstructionError::InstantiationError(_)),
        ),
        r matches Err(RunError::DependencyGraphConstructionError(_)) <==> !has_graph(
            final(handlebars)@,
            *workspace,
            *current,
            *req,
        ),
        r is Ok <==> is_cleanable(final(handlebars)@, *workspace, *current, *req),
{
    let graph = match build_dependency_graph(handlebars, workspace, current, req) {
        Ok(g) => g,
        Err(e) => {
            return Err(RunError::DependencyGraphConstructionError(e));
        },
    };
    proof {
        if has_cycle(graph_map(graph.edges)) {
            lemma_cycle_is_not_runnable(handlebars@, *workspace, *current, *req, graph);
        }
    }
    let leaves_first = match execution_order(&graph, Ghost(handlebars@), Ghost(*workspace)) {
        Ok(o) => o,
        Err(e) => {
            return Err(RunError::TopologicalSortError(e));
        },
    };
    proof {
        workspace.lemma_taskfile(current.id@);
    }
    let n = leaves_first.len();
    let mut order: Vec<usize> = Vec::new();
    let mut plans: Vec<CleanPlan> = Vec::new();
    let mut i: usize = n;
    while i > 0
        invariant
            handlebars.wf(),
            kept(old(handlebars)@, handlebars@),
            i <= n,
            n == leaves_first@.len(),
            n == graph.nodes@.len(),
            graph.wf(handlebars@, *workspace),
            is_graph_of(handlebars@, *workspace, *current, *req, graph),
            !has_cycle(graph_map(graph.edges)),
            current.wf(),
            resolves_to(*workspace, *current, req.reference@) is Some,
            !is_stuck_at_root(handlebars@, *workspace, *current, *req),
            forall|k: usize| leaves_first@.contains(k) <==> k < graph.nodes@.len(),
            order@.len() == n - i,
            plans@.len() == n - i,
            forall|k: int| 0 <= k < n - i ==> #[trigger] order@[k] == leaves_first@[n - 1 - k],
            forall|k: int|
                0 <= k < n - i ==> (#[trigger] order@[k]) < graph.nodes@.len() && clean_planned(
                    *current,
                    graph.instantiations@[order@[k] as int],
                    Ok(plans@[k]),
                ),
        decreases i,
    {
        i -= 1;
        let node = leaves_first[i];
        proof {
            assert(leaves_first@.contains(node));
            lemma_instantiation_wf(graph, handlebars@, *workspace, node as int);
        }
        let planned = clean_single_task(current, &graph, node);
        proof {
            if planned is Err {
                lemma_outside_is_not_cleanable(handlebars@, *workspace, *current, *req, graph, node);
                assert(fails_to_clean(
                    handlebars@,
                    *workspace,
                    *current,
                    *req,
                    graph,
                    node as int,
                    planned->Err_0,
                ));
            }
        }
        match planned {
            Ok(plan) => {
                let ghost order0 = order@;
                let ghost plans0 = plans@;
                order.push(node);
                plans.push(plan);
                proof {
                    assert forall|k: int| 0 <= k < n - i implies (#[trigger] order@[k])
                        < graph.nodes@.len() && clean_planned(
                        *current,
                        graph.instantiations@[order@[k] as int],
                        Ok(plans@[k]),
                    ) by {
                        if k < order0.len() {
                            assert(order@[k] == order0[k]);
                            assert(plans@[k] == plans0[k]);
                        }
                    }
                    assert forall|k: int| 0 <= k < n - i implies #[trigger] order@[k] == leaves_first@[n
                        - 1 - k] by {
                        if k < order0.len() {
                            assert(order@[k] == order0[k]);
                        }
                    }
                }
            },
            Err(e) => {
                return Err(RunError::ExecutionError(e));
            },
        }
    }
    proof {
        assert(order@.reverse() =~= leaves_first@);
        assert forall|a: int, b: int|
            0 <= a < plans@.len() && 0 <= b < plans@[a].removals@.len() implies path_within(
            (#[trigger] plans@[a].removals@[b]).path(),
            current.dir@,
        ) by {
            assert(clean_planned(*current, graph.instantiations@[order@[a] as int], Ok(plans@[a])));
        }
        assert forall|m: usize| m < graph.nodes@.len() implies order@.contains(m) by {
            assert(leaves_first@.contains(m));
            let p = choose|p: int| 0 <= p < leaves_first@.len() && leaves_first@[p] == m;
            assert(order@[n - 1 - p] == leaves_first@[p]);
        }
        assert(graph.nodes@.len() == n);
        lemma_planned_is_cleanable(handlebars@, *workspace, *current, *req, graph, order@, plans@);
    }
    Ok(CleanRun { graph, order, plans })
}

/// The instantiation of a node of a well-formed graph is well formed.
pub proof fn lemma_instantiation_wf(graph: DependencyGraph, engine: Renderings, ws: Workspace, i: int)
    requires
        graph.wf(engine, ws),
        0 <= i < graph.nodes@.len(),
    ensures
        graph.instantiations@[i].body.wf(),
{
    assert(crate::run::dependency_resolution::is_instantiation_of(
        engine,
        ws,
        graph.nodes@[i],
        graph.instantiations@[i],
    ));
}

/// `inst` is the instantiation of the task that `req` refers to in
/// `current`, over the environment `env` of the defining taskfile with
/// that of the task laid over it.
pub open spec fn is_clean_of(
    engine: Renderings,
    ws: Workspace,
    current: Taskfile,
    req: TaskInvocation<TaskRef>,
    env: StrMap<Json>,
    inst: InstantiatedTask,
) -> bool {
    &&& resolves_to(ws, current, req.reference@) is Some
    &&& layered(
        (resolves_to(ws, current, req.reference@)->0).0.env,
        env_members((resolves_to(ws, current, req.reference@)->0).1.body.env),
        env,
    )
    &&& inst.name@ == (resolves_to(ws, current, req.reference@)->0).1.name@
    &&& body_instantiated(
        engine,
        (resolves_to(ws, current, req.reference@)->0).1.body,
        task_context((resolves_to(ws, current, req.reference@)->0).1, req.args, env),
        inst.body,
    )
}

/// Plans the cleaning of the task that `req` refers to, and of nothing else.
pub fn clean_only(handlebars: &mut Engine, workspace: &Workspace, current: &Taskfile, req: &TaskInvocation<
    TaskRef,
>) -> (r: Result<CleanPlan, RunError>)
    requires
        old(handlebars).wf(),
        workspace.wf(),
        workspace.closed(),
        workspace.has(current.id@),
        workspace.taskfile(current.id@) == *current,
        req.args.wf(),
    ensures
        final(handlebars).wf(),
        kept(old(handlebars)@, final(handlebars)@),
        match r {
            Ok(plan) => {
                &&& resolves_to(*workspace, *current, req.reference@) is Some
                &&& exists|env: StrMap<Json>, inst: InstantiatedTask| #[trigger]
                    is_clean_of(final(handlebars)@, *workspace, *current, *req, env, inst) && clean_planned(
                        *current,
                        inst,
                        Ok(plan),
                    )
                &&& forall|j: int|
                    0 <= j < plan.removals@.len() ==> path_within(
                        (#[trigger] plan.removals@[j]).path(),
                        current.dir@,
                    )
            },
            Err(RunError::TaskNotFound(reference)) => resolves_to(*workspace, *current, req.reference@)
                is None && reference@ == req.reference@,
            Err(RunError::InstantiationError(_)) => resolves_to(*workspace, *current, req.reference@)
                is Some && exists|env: StrMap<Json>| #[trigger]
                layered(
                    (resolves_to(*workspace, *current, req.reference@)->0).0.env,
                    env_members((resolves_to(*workspace, *current, req.reference@)->0).1.body.env),
                    env,
                ) && !instantiable(
                    final(handlebars)@,
                    (resolves_to(*workspace, *current, req.reference@)->0).1,
                    req.args,
                    env,
                ),
            Err(RunError::ExecutionError(TaskExecutionError::OutputOutsideTaskfile(path))) => {
                &&& resolves_to(*workspace, *current, req.reference@) is Some
                &&& exists|env: StrMap<Json>, inst: InstantiatedTask| #[trigger]
                    is_clean_of(final(handlebars)@, *workspace, *current, *req, env, inst) && exists|i: int|
                        crate::run::execution::first_outside(inst, current.dir@, i) && path@
                            == crate::run::execution::resolved_paths(inst)[i]
            },
            Err(_) => false,
        },
{
    proof {
        workspace.lemma_taskfile(current.id@);
        lemma_closed_imports(*workspace, current.id@);
        lemma_import_resolved(*current, req.reference@);
    }
    let (tasks, task) = match workspace.resolve_task(current, &req.reference) {
        Some(found) => found,
        None => {
            return Err(RunError::TaskNotFound(req.reference.duplicate()));
        },
    };
    let env = layer_env(&tasks.env, &task.body.env);
    let instantiated = match task.instantiate(handlebars, &req.args, &env) {
        Ok(t) => t,
        Err(e) => {
            return Err(RunError::InstantiationError(e));
        },
    };
    assert(is_clean_of(handlebars@, *workspace, *current, *req, env, instantiated));
    match clean_instantiated_task(current, &instantiated) {
        Ok(plan) => Ok(plan),
        Err(e) => Err(RunError::ExecutionError(e)),
    }
}

} // verus!
