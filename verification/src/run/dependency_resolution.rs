//! The dependency graph of an invocation and its ordering.

use crate::collections::{env_members, 
    edge_map_insert, edge_map_new, edge_set_insert, edge_set_new, graph_keys, graph_map,
    lemma_without, set_items, without, EdgeMap,
};
use crate::json::{Json, JsonView};
use crate::strmap::StrMap;
use crate::task::instantiation::{
    args_match, body_instantiated, instantiable, lemma_instantiable_with_copy, InstantiationError,
};
use crate::task::invocation::{args_view, resolved_view, ResolvedTaskInvocation, TaskInvocation};
use crate::task::task::{Dep, InstantiatedTask};
use crate::task::task_ref::{ref_name, TaskRef, TaskRefView, TaskfileId};
use crate::task::taskfile::Taskfile;
use crate::task::workspace::{resolves_to, Workspace};
use crate::task::instantiation::task_context;
use crate::task::{layer_env, layered};
use crate::template::{kept, lemma_more_and_more, Engine, Renderings};
use vstd::prelude::*;

pub mod topological_sort;

verus! {

/// Why a graph could not be ordered.
#[derive(Debug)]
pub enum TopologicalSortError {
    /// The graph holds a cycle; the path walks it once and ends where it began.
    CycleDetected(Vec<usize>),
}

/// Why the dependencies of an invocation could not be resolved.
#[derive(Debug)]
pub enum DependencyResolutionError {
    TopologicalSortError(TopologicalSortError),
    TaskNotFound(String),
}

/// Why a dependency graph could not be built.
#[derive(Debug)]
pub enum DependencyGraphConstructionError {
    /// A task of the graph could not be instantiated.
    InstantiationError(InstantiationError),
    /// The invocation does not resolve in the taskfile of this id.
    TaskfileInvocationResolutionError(TaskfileId, TaskInvocation<TaskRef>),
}

/// What identifies a node: the defining taskfile, the task's name, the arguments.
pub type NodeView = (Seq<char>, Seq<char>, Map<Seq<char>, JsonView>);

/// The identities of the nodes of a table, in order.
pub open spec fn node_views(nodes: Seq<ResolvedTaskInvocation>) -> Seq<NodeView> {
    Seq::new(nodes.len(), |i: int| resolved_view(nodes[i]))
}

/// No two nodes of the table are the same invocation, and each carries a
/// map of arguments.
pub open spec fn nodes_wf(nodes: Seq<ResolvedTaskInvocation>) -> bool {
    &&& node_views(nodes).no_duplicates()
    &&& forall|i: int| 0 <= i < nodes.len() ==> (#[trigger] nodes[i]).args.wf()
}

/// The node that a dependency of a task of `tf` leads to, if its reference
/// resolves: the task it names, in the taskfile that defines that task, with
/// the arguments of the dependency.
pub open spec fn dep_target(ws: Workspace, tf: Taskfile, dep: Dep) -> Option<NodeView> {
    match resolves_to(ws, tf, dep.invocation.reference@) {
        Some((defining, _)) => Some(
            (defining.id@, ref_name(dep.invocation.reference@), args_view(dep.invocation.args)),
        ),
        None => None,
    }
}

/// The successors that a set holds after the numbers of `targets` have been
/// put in one by one: each once, at the place of its last occurrence.
pub open spec fn ordered_set(targets: Seq<usize>) -> Seq<usize>
    decreases targets.len(),
{
    if targets.len() == 0 {
        Seq::empty()
    } else {
        without(ordered_set(targets.drop_last()), targets.last()).push(targets.last())
    }
}

/// What was put into a set of successors is in it.
pub proof fn lemma_ordered_set_holds(targets: Seq<usize>, x: usize)
    requires
        targets.contains(x),
    ensures
        ordered_set(targets).contains(x),
    decreases targets.len(),
{
    let before = ordered_set(targets.drop_last());
    let last = targets.last();
    lemma_without(before, last);
    let all = without(before, last).push(last);
    if last == x {
        assert(all[all.len() - 1] == x);
    } else {
        let i = choose|i: int| 0 <= i < targets.len() && targets[i] == x;
        assert(targets.drop_last()[i] == x);
        lemma_ordered_set_holds(targets.drop_last(), x);
        assert(without(before, last).contains(x));
        let j = choose|j: int| 0 <= j < without(before, last).len() && without(before, last)[j] == x;
        assert(all[j] == x);
    }
}

/// Every node but the first is a successor of a node of a lower number: the
/// graph holds nothing but what its first node needs.
pub open spec fn all_needed(g: Map<usize, Seq<usize>>, n: nat) -> bool {
    forall|k: usize| 1 <= k < n ==> #[trigger] is_needed(g, k)
}

/// A node of a lower number has `k` as a successor.
pub open spec fn is_needed(g: Map<usize, Seq<usize>>, k: usize) -> bool {
    exists|j: usize| j < k && g.dom().contains(j) && (#[trigger] g[j]).contains(k)
}

/// `k` is a successor of `p` or of a node of a lower number than `p`.
pub open spec fn is_needed_by(g: Map<usize, Seq<usize>>, k: usize, p: usize) -> bool {
    exists|q: usize| q <= p && g.dom().contains(q) && (#[trigger] g[q]).contains(k)
}

/// The nodes are numbered breadth first, in the order in which they are
/// first needed: whatever has a lower number than a successor of `p`, the
/// first node apart, is itself a successor of `p` or of a node before `p`.
pub open spec fn is_breadth_first(g: Map<usize, Seq<usize>>) -> bool {
    forall|p: usize, k: usize, later: usize|
        g.dom().contains(p) && #[trigger] g[p].contains(later) && 1 <= k < later
            ==> #[trigger] is_needed_by(g, k, p)
}

/// `inst` is the instantiation of the task of `node` with the arguments of
/// `node`, over the environment of the defining taskfile with that of the
/// task laid over it.
pub open spec fn is_instantiation_of(
    engine: Renderings,
    ws: Workspace,
    node: ResolvedTaskInvocation,
    inst: InstantiatedTask,
) -> bool {
    let tf = ws.taskfile(node.reference.taskfile@);
    let task = tf.tasks.at(node.reference.name@);
    &&& ws.has(node.reference.taskfile@)
    &&& tf.tasks.has(node.reference.name@)
    &&& args_match(task.params.0, node.args)
    &&& inst.name@ == task.name@
    &&& exists|env: StrMap<Json>| #[trigger]
        layered(tf.env, env_members(task.body.env), env) && body_instantiated(
            engine,
            task.body,
            task_context(task, node.args, env),
            inst.body,
        )
}

/// `targets` holds, for each dependency of `inst`, the number of the node
/// that it leads to.
pub open spec fn are_targets(
    ws: Workspace,
    views: Seq<NodeView>,
    node: ResolvedTaskInvocation,
    inst: InstantiatedTask,
    targets: Seq<usize>,
) -> bool {
    &&& targets.len() == inst.body.deps.0@.len()
    &&& forall|j: int|
        0 <= j < targets.len() ==> (#[trigger] targets[j]) < views.len() && dep_target(
            ws,
            ws.taskfile(node.reference.taskfile@),
            inst.body.deps.0@[j],
        ) == Some(views[targets[j] as int])
}

/// The successors of a node are the nodes that the dependencies of its
/// instantiation lead to, in the order of the dependencies.
pub open spec fn is_expanded(
    ws: Workspace,
    views: Seq<NodeView>,
    node: ResolvedTaskInvocation,
    inst: InstantiatedTask,
    successors: Seq<usize>,
) -> bool {
    exists|targets: Seq<usize>| #[trigger]
        are_targets(ws, views, node, inst, targets) && successors == ordered_set(targets)
}

/// The numbers from 0 up to `n`, without `n`.
pub open spec fn up_to(n: nat) -> Seq<usize> {
    Seq::new(n, |i: int| i as usize)
}

/// The graph of an invocation: every invocation that it needs, directly or
/// not, as a numbered node; for each node its instantiation and the numbers
/// of the nodes that it depends on.
pub struct DependencyGraph {
    /// The nodes in the order of their discovery; the first is the root.
    pub nodes: Vec<ResolvedTaskInvocation>,
    /// For each node, under its number, the numbers of its successors.
    pub edges: EdgeMap,
    /// For each node, under its number, its instantiation.
    pub instantiations: Vec<InstantiatedTask>,
}

impl DependencyGraph {
    /// Every node is there once, is instantiated and is expanded; every
    /// node but the first is needed by one before it, and the nodes are
    /// numbered breadth first.
    pub open spec fn wf(&self, engine: Renderings, ws: Workspace) -> bool {
        &&& nodes_wf(self.nodes@)
        &&& self.nodes@.len() > 0
        &&& self.instantiations@.len() == self.nodes@.len()
        &&& graph_keys(self.edges) == up_to(self.nodes@.len())
        &&& forall|k: usize| graph_map(self.edges).dom().contains(k) <==> k < self.nodes@.len()
        &&& all_needed(graph_map(self.edges), self.nodes@.len())
        &&& is_breadth_first(graph_map(self.edges))
        &&& forall|i: int|
            0 <= i < self.nodes@.len() ==> is_instantiation_of(
                engine,
                ws,
                #[trigger] self.nodes@[i],
                self.instantiations@[i],
            )
        &&& forall|i: int|
            0 <= i < self.nodes@.len() ==> is_expanded(
                ws,
                node_views(self.nodes@),
                #[trigger] self.nodes@[i],
                self.instantiations@[i],
                graph_map(self.edges)[i as usize],
            )
    }
}

/// The invocation refers to a task without dependencies and without
/// templates, and its arguments fit the parameters of the task.
pub open spec fn is_plain_leaf(ws: Workspace, current: Taskfile, invocation: TaskInvocation<TaskRef>) -> bool {
    &&& resolves_to(ws, current, invocation.reference@) is Some
    &&& (resolves_to(ws, current, invocation.reference@)->0).1.body.deps.0@.len() == 0
    &&& args_match((resolves_to(ws, current, invocation.reference@)->0).1.params.0, invocation.args)
    &&& crate::task::instantiation::is_plain_body(
        (resolves_to(ws, current, invocation.reference@)->0).1.body,
    )
}

/// The task of `node` cannot be instantiated with the arguments of `node`
/// over its environment.
pub open spec fn is_stuck(engine: Renderings, ws: Workspace, node: ResolvedTaskInvocation) -> bool {
    let tf = ws.taskfile(node.reference.taskfile@);
    let task = tf.tasks.at(node.reference.name@);
    &&& ws.has(node.reference.taskfile@)
    &&& tf.tasks.has(node.reference.name@)
    &&& node.args.wf()
    &&& exists|env: StrMap<Json>| #[trigger]
        layered(tf.env, env_members(task.body.env), env) && !instantiable(engine, task, node.args, env)
}

/// The invocation refers to a task that cannot be instantiated with the
/// arguments of the invocation.
pub open spec fn is_stuck_at_root(
    engine: Renderings,
    ws: Workspace,
    current: Taskfile,
    invocation: TaskInvocation<TaskRef>,
) -> bool {
    &&& resolves_to(ws, current, invocation.reference@) is Some
    &&& forall|env: StrMap<Json>|
        layered(
            (resolves_to(ws, current, invocation.reference@)->0).0.env,
            env_members((resolves_to(ws, current, invocation.reference@)->0).1.body.env),
            env,
        ) ==> !#[trigger] instantiable(
            engine,
            (resolves_to(ws, current, invocation.reference@)->0).1,
            invocation.args,
            env,
        )
}

/// `graph` is the graph of everything that `invocation` needs: its first
/// node is the task that `invocation` refers to in `current`, with the
/// arguments of `invocation`.
pub open spec fn is_graph_of(
    engine: Renderings,
    ws: Workspace,
    current: Taskfile,
    invocation: TaskInvocation<TaskRef>,
    graph: DependencyGraph,
) -> bool {
    &&& graph.wf(engine, ws)
    &&& resolves_to(ws, current, invocation.reference@) is Some
    &&& resolved_view(graph.nodes@[0]) == (
        (resolves_to(ws, current, invocation.reference@)->0).0.id@,
        ref_name(invocation.reference@),
        args_view(invocation.args),
    )
}

/// `v` is a node of `g`.
pub open spec fn is_node_of(g: DependencyGraph, v: NodeView) -> bool {
    exists|j: int| 0 <= j < g.nodes@.len() && #[trigger] node_views(g.nodes@)[j] == v
}

/// Of a node of a graph: its task can be instantiated with its arguments,
/// and what the dependencies of an instantiation lead to are nodes of the
/// graph.
pub proof fn lemma_graph_node(
    engine: Renderings,
    ws: Workspace,
    g: DependencyGraph,
    node: ResolvedTaskInvocation,
    env: StrMap<Json>,
    out: crate::task::task::TaskBody,
)
    requires
        g.wf(engine, ws),
        is_node_of(g, resolved_view(node)),
        layered(
            ws.taskfile(node.reference.taskfile@).env,
            env_members(ws.taskfile(node.reference.taskfile@).tasks.at(node.reference.name@).body.env),
            env,
        ),
    ensures
        instantiable(
            engine,
            ws.taskfile(node.reference.taskfile@).tasks.at(node.reference.name@),
            node.args,
            env,
        ),
        body_instantiated(
            engine,
            ws.taskfile(node.reference.taskfile@).tasks.at(node.reference.name@).body,
            task_context(
                ws.taskfile(node.reference.taskfile@).tasks.at(node.reference.name@),
                node.args,
                env,
            ),
            out,
        ) ==> forall|t: int|
            0 <= t < out.deps.0@.len() ==> (#[trigger] dep_target(
                ws,
                ws.taskfile(node.reference.taskfile@),
                out.deps.0@[t],
            )) is Some && is_node_of(
                g,
                dep_target(ws, ws.taskfile(node.reference.taskfile@), out.deps.0@[t])->0,
            ),
{
    let tf = ws.taskfile(node.reference.taskfile@);
    let task = tf.tasks.at(node.reference.name@);
    let j = choose|j: int| 0 <= j < g.nodes@.len() && #[trigger] node_views(g.nodes@)[j] == resolved_view(
        node,
    );
    let twin = g.nodes@[j];
    let inst = g.instantiations@[j];
    assert(resolved_view(twin) == resolved_view(node));
    assert(is_instantiation_of(engine, ws, twin, inst));
    let env_g = choose|env_g: StrMap<Json>| #[trigger]
        layered(tf.env, env_members(task.body.env), env_g) && body_instantiated(
            engine,
            task.body,
            task_context(task, twin.args, env_g),
            inst.body,
        );
    crate::task::lemma_layered_same(tf.env, env_members(task.body.env), env_g, env);
    crate::task::instantiation::lemma_same_context(task, twin.args, node.args, env_g);
    let context = task_context(task, node.args, env);
    assert(task_context(task, twin.args, env_g) == context);
    crate::task::instantiation::lemma_instantiated_is_instantiable(
        engine,
        task,
        node.args,
        env,
        inst.body,
    );
    if body_instantiated(engine, task.body, context, out) {
        crate::task::instantiation::lemma_same_dependencies(engine, task.body, context, out, inst.body);
        assert(is_expanded(ws, node_views(g.nodes@), twin, inst, graph_map(g.edges)[j as usize]));
        let targets = choose|targets: Seq<usize>| #[trigger]
            are_targets(ws, node_views(g.nodes@), twin, inst, targets);
        assert forall|t: int| 0 <= t < out.deps.0@.len() implies (#[trigger] dep_target(
            ws,
            tf,
            out.deps.0@[t],
        )) is Some && is_node_of(g, dep_target(ws, tf, out.deps.0@[t])->0) by {
            assert(targets[t] < node_views(g.nodes@).len());
            assert(dep_target(ws, tf, inst.body.deps.0@[t]) == Some(
                node_views(g.nodes@)[targets[t] as int],
            ));
            assert(out.deps.0@[t].invocation.reference@ == inst.body.deps.0@[t].invocation.reference@);
            assert(dep_target(ws, tf, out.deps.0@[t]) == dep_target(ws, tf, inst.body.deps.0@[t]));
        }
    }
}

/// `inst` is an instantiation of `node`, and has a dependency at `t`.
pub open spec fn is_dep_of(
    engine: Renderings,
    ws: Workspace,
    node: ResolvedTaskInvocation,
    inst: InstantiatedTask,
    t: int,
) -> bool {
    is_instantiation_of(engine, ws, node, inst) && 0 <= t < inst.body.deps.0@.len()
}

/// A dependency of an instantiation of `a` leads to `b`.
pub open spec fn leads_to(
    engine: Renderings,
    ws: Workspace,
    a: ResolvedTaskInvocation,
    b: ResolvedTaskInvocation,
) -> bool {
    exists|inst: InstantiatedTask, t: int| #[trigger]
        is_dep_of(engine, ws, a, inst, t) && dep_target(
            ws,
            ws.taskfile(a.reference.taskfile@),
            inst.body.deps.0@[t],
        ) == Some(resolved_view(b))
}

/// `path` begins at what `invocation` refers to in `current`, and each of
/// its nodes leads to the next.
pub open spec fn is_path_from_root(
    engine: Renderings,
    ws: Workspace,
    current: Taskfile,
    invocation: TaskInvocation<TaskRef>,
    path: Seq<ResolvedTaskInvocation>,
) -> bool {
    &&& path.len() > 0
    &&& resolves_to(ws, current, invocation.reference@) is Some
    &&& resolved_view(path[0]) == (
        (resolves_to(ws, current, invocation.reference@)->0).0.id@,
        ref_name(invocation.reference@),
        args_view(invocation.args),
    )
    &&& forall|i: int| 0 <= i < path.len() - 1 ==> leads_to(engine, ws, #[trigger] path[i], path[i + 1])
}

/// `invocation` needs `node`: `node` is what it refers to, or is reached
/// from there through dependencies of instantiations.
pub open spec fn is_reached(
    engine: Renderings,
    ws: Workspace,
    current: Taskfile,
    invocation: TaskInvocation<TaskRef>,
    node: ResolvedTaskInvocation,
) -> bool {
    exists|path: Seq<ResolvedTaskInvocation>| #[trigger]
        is_path_from_root(engine, ws, current, invocation, path) && path.last() == node
}

/// What a node that is reached leads to is reached.
pub proof fn lemma_reach_step(
    engine: Renderings,
    ws: Workspace,
    current: Taskfile,
    invocation: TaskInvocation<TaskRef>,
    a: ResolvedTaskInvocation,
    b: ResolvedTaskInvocation,
)
    requires
        is_reached(engine, ws, current, invocation, a),
        leads_to(engine, ws, a, b),
    ensures
        is_reached(engine, ws, current, invocation, b),
{
    let path = choose|path: Seq<ResolvedTaskInvocation>| #[trigger]
        is_path_from_root(engine, ws, current, invocation, path) && path.last() == a;
    let longer = path.push(b);
    assert forall|i: int| 0 <= i < longer.len() - 1 implies leads_to(
        engine,
        ws,
        #[trigger] longer[i],
        longer[i + 1],
    ) by {
        if i < path.len() - 1 {
            assert(leads_to(engine, ws, path[i], path[i + 1]));
        }
    }
    assert(longer[0] == path[0]);
    assert(is_path_from_root(engine, ws, current, invocation, longer) && longer.last() == b);
}

/// The reference `reference`, which does not resolve, stands in the
/// taskfile of the id `id` and is needed by `invocation`: it is the
/// reference of `invocation` itself, or that of a dependency of an
/// instantiation of a node that is reached.
pub open spec fn is_needed_reference(
    engine: Renderings,
    ws: Workspace,
    current: Taskfile,
    invocation: TaskInvocation<TaskRef>,
    id: Seq<char>,
    reference: TaskRefView,
) -> bool {
    ||| id == current.id@ && reference == invocation.reference@
    ||| exists|node: ResolvedTaskInvocation, inst: InstantiatedTask, t: int|
        is_reached(engine, ws, current, invocation, node) && #[trigger] is_dep_of(
            engine,
            ws,
            node,
            inst,
            t,
        ) && node.reference.taskfile@ == id && inst.body.deps.0@[t].invocation.reference@ == reference
}

/// An instantiation by one record is an instantiation by every record
/// that holds as much.
pub proof fn lemma_instantiation_stays(
    known: Renderings,
    more: Renderings,
    ws: Workspace,
    node: ResolvedTaskInvocation,
    inst: InstantiatedTask,
)
    requires
        kept(known, more),
        is_instantiation_of(known, ws, node, inst),
    ensures
        is_instantiation_of(more, ws, node, inst),
{
    let tf = ws.taskfile(node.reference.taskfile@);
    let task = tf.tasks.at(node.reference.name@);
    let env = choose|env: StrMap<Json>| #[trigger]
        layered(tf.env, env_members(task.body.env), env) && body_instantiated(
            known,
            task.body,
            task_context(task, node.args, env),
            inst.body,
        );
    crate::task::instantiation::lemma_body_stays(
        known,
        more,
        task.body,
        task_context(task, node.args, env),
        inst.body,
    );
    assert(layered(tf.env, env_members(task.body.env), env) && body_instantiated(
        more,
        task.body,
        task_context(task, node.args, env),
        inst.body,
    ));
}

/// What is reached by one record is reached by every record that holds as
/// much.
pub proof fn lemma_reached_stays(
    known: Renderings,
    more: Renderings,
    ws: Workspace,
    current: Taskfile,
    invocation: TaskInvocation<TaskRef>,
    node: ResolvedTaskInvocation,
)
    requires
        kept(known, more),
        is_reached(known, ws, current, invocation, node),
    ensures
        is_reached(more, ws, current, invocation, node),
{
    let path = choose|path: Seq<ResolvedTaskInvocation>| #[trigger]
        is_path_from_root(known, ws, current, invocation, path) && path.last() == node;
    assert forall|i: int| 0 <= i < path.len() - 1 implies leads_to(more, ws, #[trigger] path[i], path[i + 1]) by {
        assert(leads_to(known, ws, path[i], path[i + 1]));
        let (inst, t) = choose|inst: InstantiatedTask, t: int| #[trigger]
            is_dep_of(known, ws, path[i], inst, t) && dep_target(
                ws,
                ws.taskfile(path[i].reference.taskfile@),
                inst.body.deps.0@[t],
            ) == Some(resolved_view(path[i + 1]));
        lemma_instantiation_stays(known, more, ws, path[i], inst);
        assert(is_dep_of(more, ws, path[i], inst, t));
    }
    assert(is_path_from_root(more, ws, current, invocation, path) && path.last() == node);
}

/// The nodes of a path from the root are nodes of every graph of the
/// invocation.
pub proof fn lemma_path_in_graph(
    engine: Renderings,
    ws: Workspace,
    current: Taskfile,
    invocation: TaskInvocation<TaskRef>,
    g: DependencyGraph,
    path: Seq<ResolvedTaskInvocation>,
    k: int,
)
    requires
        is_graph_of(engine, ws, current, invocation, g),
        is_path_from_root(engine, ws, current, invocation, path),
        0 <= k < path.len(),
    ensures
        is_node_of(g, resolved_view(path[k])),
    decreases k,
{
    if k == 0 {
        assert(node_views(g.nodes@)[0] == resolved_view(path[0]));
    } else {
        lemma_path_in_graph(engine, ws, current, invocation, g, path, k - 1);
        let a = path[k - 1];
        assert(leads_to(engine, ws, a, path[k]));
        let (inst, t) = choose|inst: InstantiatedTask, t: int| #[trigger]
            is_dep_of(engine, ws, a, inst, t) && dep_target(
                ws,
                ws.taskfile(a.reference.taskfile@),
                inst.body.deps.0@[t],
            ) == Some(resolved_view(path[k]));
        let tf = ws.taskfile(a.reference.taskfile@);
        let task = tf.tasks.at(a.reference.name@);
        let env = choose|env: StrMap<Json>| #[trigger]
            layered(tf.env, env_members(task.body.env), env) && body_instantiated(
                engine,
                task.body,
                task_context(task, a.args, env),
                inst.body,
            );
        lemma_graph_node(engine, ws, g, a, env, inst.body);
        assert(dep_target(ws, tf, inst.body.deps.0@[t]) is Some);
    }
}

/// A node that is reached is a node of every graph of the invocation.
pub proof fn lemma_reached_is_node(
    engine: Renderings,
    ws: Workspace,
    current: Taskfile,
    invocation: TaskInvocation<TaskRef>,
    g: DependencyGraph,
    node: ResolvedTaskInvocation,
)
    requires
        is_graph_of(engine, ws, current, invocation, g),
        is_reached(engine, ws, current, invocation, node),
    ensures
        is_node_of(g, resolved_view(node)),
{
    let path = choose|path: Seq<ResolvedTaskInvocation>| #[trigger]
        is_path_from_root(engine, ws, current, invocation, path) && path.last() == node;
    lemma_path_in_graph(engine, ws, current, invocation, g, path, path.len() - 1);
}

/// Where the task of a node that is reached cannot be instantiated, the
/// invocation has no graph.
pub proof fn lemma_stuck_has_no_graph(
    engine: Renderings,
    ws: Workspace,
    current: Taskfile,
    invocation: TaskInvocation<TaskRef>,
    node: ResolvedTaskInvocation,
    env: StrMap<Json>,
)
    requires
        is_reached(engine, ws, current, invocation, node),
        layered(
            ws.taskfile(node.reference.taskfile@).env,
            env_members(ws.taskfile(node.reference.taskfile@).tasks.at(node.reference.name@).body.env),
            env,
        ),
        !instantiable(
            engine,
            ws.taskfile(node.reference.taskfile@).tasks.at(node.reference.name@),
            node.args,
            env,
        ),
    ensures
        !exists|g: DependencyGraph| #[trigger] is_graph_of(engine, ws, current, invocation, g),
{
    if exists|g: DependencyGraph| #[trigger] is_graph_of(engine, ws, current, invocation, g) {
        let g = choose|g: DependencyGraph| #[trigger] is_graph_of(engine, ws, current, invocation, g);
        lemma_reached_is_node(engine, ws, current, invocation, g, node);
        lemma_graph_node(
            engine,
            ws,
            g,
            node,
            env,
            ws.taskfile(node.reference.taskfile@).tasks.at(node.reference.name@).body,
        );
    }
}

/// Where a dependency of an instantiation of a node that is reached does
/// not resolve, the invocation has no graph.
pub proof fn lemma_unresolved_has_no_graph(
    engine: Renderings,
    ws: Workspace,
    current: Taskfile,
    invocation: TaskInvocation<TaskRef>,
    node: ResolvedTaskInvocation,
    inst: InstantiatedTask,
    t: int,
)
    requires
        is_reached(engine, ws, current, invocation, node),
        is_dep_of(engine, ws, node, inst, t),
        dep_target(ws, ws.taskfile(node.reference.taskfile@), inst.body.deps.0@[t]) is None,
    ensures
        !exists|g: DependencyGraph| #[trigger] is_graph_of(engine, ws, current, invocation, g),
{
    if exists|g: DependencyGraph| #[trigger] is_graph_of(engine, ws, current, invocation, g) {
        let g = choose|g: DependencyGraph| #[trigger] is_graph_of(engine, ws, current, invocation, g);
        lemma_reached_is_node(engine, ws, current, invocation, g, node);
        let tf = ws.taskfile(node.reference.taskfile@);
        let task = tf.tasks.at(node.reference.name@);
        let env = choose|env: StrMap<Json>| #[trigger]
            layered(tf.env, env_members(task.body.env), env) && body_instantiated(
                engine,
                task.body,
                task_context(task, node.args, env),
                inst.body,
            );
        lemma_graph_node(engine, ws, g, node, env, inst.body);
        assert(dep_target(ws, tf, inst.body.deps.0@[t]) is Some);
    }
}

/// Where there is an instantiation of what the invocation refers to, the
/// invocation is not stuck at its root.
pub proof fn lemma_root_is_not_stuck(
    engine: Renderings,
    ws: Workspace,
    current: Taskfile,
    invocation: TaskInvocation<TaskRef>,
    root: ResolvedTaskInvocation,
    inst: InstantiatedTask,
)
    requires
        ws.wf(),
        ws.has(current.id@),
        ws.taskfile(current.id@) == current,
        resolves_to(ws, current, invocation.reference@) is Some,
        resolved_view(root) == (
            (resolves_to(ws, current, invocation.reference@)->0).0.id@,
            ref_name(invocation.reference@),
            args_view(invocation.args),
        ),
        is_instantiation_of(engine, ws, root, inst),
    ensures
        !is_stuck_at_root(engine, ws, current, invocation),
{
    lemma_resolved_is_there(ws, current, invocation.reference@);
    let tf = ws.taskfile(root.reference.taskfile@);
    let task = tf.tasks.at(root.reference.name@);
    let env = choose|env: StrMap<Json>| #[trigger]
        layered(tf.env, env_members(task.body.env), env) && body_instantiated(
            engine,
            task.body,
            task_context(task, root.args, env),
            inst.body,
        );
    crate::task::instantiation::lemma_instantiated_is_instantiable(engine, task, root.args, env, inst.body);
    lemma_instantiable_with_copy(engine, task, root.args, invocation.args, env);
    let found = resolves_to(ws, current, invocation.reference@)->0;
    assert(tf == found.0);
    assert(instantiable(engine, found.1, invocation.args, env));
}

/// What a failure to build the graph of `invocation` tells: a reference
/// that `invocation` needs does not resolve in the taskfile that holds it,
/// or the task of a node that is reached cannot be instantiated with its
/// arguments.
pub open spec fn is_construction_fault(
    engine: Renderings,
    ws: Workspace,
    current: Taskfile,
    invocation: TaskInvocation<TaskRef>,
    e: DependencyGraphConstructionError,
) -> bool {
    match e {
        DependencyGraphConstructionError::TaskfileInvocationResolutionError(id, inv) => {
            &&& ws.has(id@)
            &&& resolves_to(ws, ws.taskfile(id@), inv.reference@) is None
            &&& is_needed_reference(engine, ws, current, invocation, id@, inv.reference@)
        },
        DependencyGraphConstructionError::InstantiationError(_) => {
            &&& resolves_to(ws, current, invocation.reference@) is Some
            &&& exists|node: ResolvedTaskInvocation| #[trigger]
                is_stuck(engine, ws, node) && is_reached(engine, ws, current, invocation, node)
        },
    }
}

/// The number of the node that is the same invocation as `inv`; where the
/// table holds none, `inv` is added at its end.
pub fn intern(nodes: &mut Vec<ResolvedTaskInvocation>, inv: ResolvedTaskInvocation) -> (r: usize)
    requires
        nodes_wf(old(nodes)@),
        inv.args.wf(),
    ensures
        nodes_wf(final(nodes)@),
        r < final(nodes)@.len(),
        resolved_view(final(nodes)@[r as int]) == resolved_view(inv),
        final(nodes)@ == old(nodes)@ || final(nodes)@ == old(nodes)@.push(inv),
        node_views(old(nodes)@).contains(resolved_view(inv)) ==> final(nodes)@ == old(nodes)@,
{
    let mut i: usize = 0;
    while i < nodes.len()
        invariant
            i <= nodes.len(),
            *nodes == *old(nodes),
            nodes_wf(nodes@),
            inv.args.wf(),
            forall|j: int| 0 <= j < i ==> node_views(nodes@)[j] != resolved_view(inv),
        decreases nodes.len() - i,
    {
        assert(nodes@[i as int].args.wf());
        if nodes[i].equals(&inv) {
            return i;
        }
        assert(node_views(nodes@)[i as int] == resolved_view(nodes@[i as int]));
        i += 1;
    }
    let ghost before = nodes@;
    nodes.push(inv);
    proof {
        let after = nodes@;
        assert forall|a: int, b: int|
            0 <= a < after.len() && 0 <= b < after.len() && a != b implies node_views(after)[a]
            != node_views(after)[b] by {
            if a < before.len() {
                assert(node_views(after)[a] == node_views(before)[a]);
            }
            if b < before.len() {
                assert(node_views(after)[b] == node_views(before)[b]);
            }
        }
        assert forall|j: int| 0 <= j < after.len() implies (#[trigger] after[j]).args.wf() by {
            if j < before.len() {
                assert(after[j] == before[j]);
            }
        }
        if node_views(before).contains(resolved_view(inv)) {
            let j = choose|j: int|
                0 <= j < node_views(before).len() && node_views(before)[j] == resolved_view(inv);
            assert(false);
        }
    }
    i
}

/// What holds of a table that has grown at its end: targets and
/// expansions that were found before are still the same.
pub proof fn lemma_growth_keeps_expansion(
    ws: Workspace,
    before: Seq<ResolvedTaskInvocation>,
    after: Seq<ResolvedTaskInvocation>,
    node: ResolvedTaskInvocation,
    inst: InstantiatedTask,
    successors: Seq<usize>,
)
    requires
        before.len() <= after.len(),
        forall|i: int| 0 <= i < before.len() ==> before[i] == after[i],
        is_expanded(ws, node_views(before), node, inst, successors),
    ensures
        is_expanded(ws, node_views(after), node, inst, successors),
{
    let targets = choose|targets: Seq<usize>| #[trigger]
        are_targets(ws, node_views(before), node, inst, targets) && successors == ordered_set(targets);
    assert forall|j: int| 0 <= j < targets.len() implies (#[trigger] targets[j]) < node_views(
        after,
    ).len() && dep_target(ws, ws.taskfile(node.reference.taskfile@), inst.body.deps.0@[j]) == Some(
        node_views(after)[targets[j] as int],
    ) by {
        assert(node_views(before)[targets[j] as int] == node_views(after)[targets[j] as int]);
    }
    assert(are_targets(ws, node_views(after), node, inst, targets));
}

/// Builds the graph of everything that `invocation` needs: starting at the
/// task that `invocation` refers to in `current`, each node is instantiated
/// and the dependencies of the instantiation are resolved in the taskfile
/// that defines the node's task. Nodes are numbered in the order of their
/// discovery, breadth first.
pub fn build_dependency_graph(
    handlebars: &mut Engine,
    workspace: &Workspace,
    current: &Taskfile,
    invocation: &TaskInvocation<TaskRef>,
) -> (r: Result<DependencyGraph, DependencyGraphConstructionError>)
    requires
        old(handlebars).wf(),
        workspace.wf(),
        workspace.closed(),
        workspace.has(current.id@),
        workspace.taskfile(current.id@) == *current,
        invocation.args.wf(),
    ensures
        final(handlebars).wf(),
        kept(old(handlebars)@, final(handlebars)@),
        match r {
            Ok(graph) => is_graph_of(final(handlebars)@, *workspace, *current, *invocation, graph),
            Err(e) => is_construction_fault(final(handlebars)@, *workspace, *current, *invocation, e),
        },
        r is Ok <==> exists|g: DependencyGraph| #[trigger]
            is_graph_of(final(handlebars)@, *workspace, *current, *invocation, g),
        resolves_to(*workspace, *current, invocation.reference@) is None ==> r is Err,
        is_stuck_at_root(final(handlebars)@, *workspace, *current, *invocation) ==> r matches Err(
            DependencyGraphConstructionError::InstantiationError(_),
        ),
        is_plain_leaf(*workspace, *current, *invocation) ==> (r matches Ok(graph) && graph.nodes@.len()
            == 1 && graph_map(graph.edges)[0].len() == 0),
{
    proof {
        workspace.lemma_taskfile(current.id@);
        lemma_closed_imports(*workspace, current.id@);
    }
    let ghost leaf = is_plain_leaf(*workspace, *current, *invocation);
    let root = match workspace.resolve_invocation(current, invocation) {
        Some((resolved, _)) => resolved,
        None => {
            return Err(
                DependencyGraphConstructionError::TaskfileInvocationResolutionError(
                    current.id.duplicate(),
                    invocation.duplicate(),
                ),
            );
        },
    };
    proof {
        lemma_resolved_is_there(*workspace, *current, invocation.reference@);
    }
    let mut nodes: Vec<ResolvedTaskInvocation> = Vec::new();
    nodes.push(root);
    let mut edges = edge_map_new();
    let mut instantiations: Vec<InstantiatedTask> = Vec::new();
    let mut next: usize = 0;
    proof {
        assert(node_views(nodes@).no_duplicates());
        assert(graph_keys(edges) =~= up_to(0));
        let path = seq![nodes@[0]];
        assert(is_path_from_root(handlebars@, *workspace, *current, *invocation, path) && path.last()
            == nodes@[0]);
    }
    while next < nodes.len()
        invariant
            forall|i: int|
                0 <= i < nodes@.len() ==> is_reached(
                    handlebars@,
                    *workspace,
                    *current,
                    *invocation,
                    #[trigger] nodes@[i],
                ),
            handlebars.wf(),
            kept(old(handlebars)@, handlebars@),
            workspace.wf(),
            workspace.closed(),
            nodes_wf(nodes@),
            nodes@.len() > 0,
            resolves_to(*workspace, *current, invocation.reference@) is Some,
            leaf == is_plain_leaf(*workspace, *current, *invocation),
            leaf ==> nodes@.len() == 1,
            leaf && next >= 1 ==> graph_map(edges)[0].len() == 0,
            invocation.args.wf(),
            nodes@[0].args.keys() == invocation.args.keys(),
            nodes@[0].args.values().len() == invocation.args.values().len(),
            forall|i: int|
                0 <= i < invocation.args.values().len() ==> (#[trigger] nodes@[0].args.values()[i])@
                    == invocation.args.values()[i]@,
            workspace.has(current.id@),
            workspace.taskfile(current.id@) == *current,
            resolved_view(nodes@[0]) == (
                (resolves_to(*workspace, *current, invocation.reference@)->0).0.id@,
                ref_name(invocation.reference@),
                args_view(invocation.args),
            ),
            next <= nodes@.len(),
            instantiations@.len() == next,
            graph_keys(edges) == up_to(next as nat),
            forall|k: usize| graph_map(edges).dom().contains(k) <==> k < next,
            all_needed(graph_map(edges), nodes@.len()),
            is_breadth_first(graph_map(edges)),
            forall|i: int|
                0 <= i < nodes@.len() ==> workspace.has((#[trigger] nodes@[i]).reference.taskfile@)
                    && workspace.taskfile(nodes@[i].reference.taskfile@).tasks.has(
                    nodes@[i].reference.name@,
                ),
            forall|i: int|
                0 <= i < next ==> is_instantiation_of(
                    handlebars@,
                    *workspace,
                    #[trigger] nodes@[i],
                    instantiations@[i],
                ),
            forall|i: int|
                0 <= i < next ==> is_expanded(
                    *workspace,
                    node_views(nodes@),
                    #[trigger] nodes@[i],
                    instantiations@[i],
                    graph_map(edges)[i as usize],
                ),
        decreases usize::MAX - next,
    {
        let ghost node = nodes@[next as int];
        assert(node.args.wf());
        let (tasks, task) = match workspace.resolve_invocation_task(&nodes[next]) {
            Some(found) => found,
            // Every node names a task that its taskfile holds.
            None => vstd::pervasive::unreached(),
        };
        let env = layer_env(&tasks.env, &task.body.env);
        let ghost before = handlebars@;
        let ghost insts0 = instantiations@;
        let instantiated = task.instantiate(handlebars, &nodes[next].args, &env);
        proof {
            lemma_more_and_more(old(handlebars)@, before, handlebars@);
            assert forall|i: int| 0 <= i < nodes@.len() implies is_reached(
                handlebars@,
                *workspace,
                *current,
                *invocation,
                #[trigger] nodes@[i],
            ) by {
                lemma_reached_stays(before, handlebars@, *workspace, *current, *invocation, nodes@[i]);
            }
            assert forall|i: int| 0 <= i < next implies is_instantiation_of(
                handlebars@,
                *workspace,
                #[trigger] nodes@[i],
                instantiations@[i],
            ) by {
                lemma_instantiation_stays(before, handlebars@, *workspace, nodes@[i], instantiations@[i]);
            }
            if leaf {
                lemma_resolved_is_there(*workspace, *current, invocation.reference@);
                let found = resolves_to(*workspace, *current, invocation.reference@)->0;
                assert(*tasks == found.0);
                assert(*task == found.1);
                crate::task::instantiation::lemma_same_context(*task, invocation.args, node.args, env);
                crate::task::instantiation::lemma_plain_body_is_instantiable(
                    handlebars@,
                    *task,
                    node.args,
                    env,
                );
            }
        }
        let inst = match instantiated {
            Ok(inst) => inst,
            Err(e) => {
                proof {
                    assert(is_stuck(handlebars@, *workspace, node) && is_reached(
                        handlebars@,
                        *workspace,
                        *current,
                        *invocation,
                        node,
                    ));
                    lemma_stuck_has_no_graph(handlebars@, *workspace, *current, *invocation, node, env);
                }
                return Err(DependencyGraphConstructionError::InstantiationError(e));
            },
        };
        assert(leaf ==> inst.body.deps.0@.len() == 0);
        assert(is_instantiation_of(handlebars@, *workspace, node, inst)) by {
            assert(layered(tasks.env, env_members(task.body.env), env) && body_instantiated(
                handlebars@,
                task.body,
                task_context(*task, node.args, env),
                inst.body,
            ));
        }
        proof {
            lemma_closed_imports(*workspace, tasks.id@);
        }
        let mut successors = edge_set_new();
        let ghost mut targets: Seq<usize> = Seq::empty();
        let ghost nodes0 = nodes@;
        let ghost root_inst = if next == 0 {
            inst
        } else {
            instantiations@[0]
        };
        proof {
            lemma_root_is_not_stuck(handlebars@, *workspace, *current, *invocation, nodes@[0], root_inst);
        }
        let mut j: usize = 0;
        while j < inst.body.deps.0.len()
            invariant
                handlebars.wf(),
                kept(old(handlebars)@, handlebars@),
                workspace.wf(),
                workspace.closed(),
                workspace.has(tasks.id@),
                workspace.taskfile(tasks.id@) == *tasks,
                tasks.wf(),
                tasks.imports_resolved(),
                tasks.id@ == node.reference.taskfile@,
                crate::task::task::deps_wf(inst.body.deps.0@),
                nodes_wf(nodes@),
                j <= inst.body.deps.0@.len(),
                leaf == is_plain_leaf(*workspace, *current, *invocation),
                leaf ==> inst.body.deps.0@.len() == 0 && nodes@.len() == 1,
                !is_stuck_at_root(handlebars@, *workspace, *current, *invocation),
                forall|i: int|
                    0 <= i < nodes@.len() ==> is_reached(
                        handlebars@,
                        *workspace,
                        *current,
                        *invocation,
                        #[trigger] nodes@[i],
                    ),
                is_instantiation_of(handlebars@, *workspace, node, inst),
                next < nodes0.len(),
                nodes0.len() <= nodes@.len(),
                forall|i: int| 0 <= i < nodes0.len() ==> nodes0[i] == nodes@[i],
                nodes0[next as int] == node,
                targets.len() == j,
                forall|k: usize| nodes0.len() <= k < nodes@.len() ==> targets.contains(k),
                forall|t: int|
                    0 <= t < j ==> (#[trigger] targets[t]) < nodes@.len() && dep_target(
                        *workspace,
                        *tasks,
                        inst.body.deps.0@[t],
                    ) == Some(node_views(nodes@)[targets[t] as int]),
                set_items(successors) == ordered_set(targets),
                forall|i: int|
                    0 <= i < nodes@.len() ==> workspace.has((#[trigger] nodes@[i]).reference.taskfile@)
                        && workspace.taskfile(nodes@[i].reference.taskfile@).tasks.has(
                        nodes@[i].reference.name@,
                    ),
            decreases inst.body.deps.0@.len() - j,
        {
            let dep = &inst.body.deps.0[j];
            assert(dep.wf());
            proof {
                lemma_import_resolved(*tasks, dep.invocation.reference@);
            }
            let resolved = match workspace.resolve_invocation(tasks, &dep.invocation) {
                Some((resolved, _)) => resolved,
                None => {
                    proof {
                        assert(is_dep_of(handlebars@, *workspace, node, inst, j as int));
                        assert(dep_target(*workspace, *tasks, inst.body.deps.0@[j as int]) is None);
                        lemma_unresolved_has_no_graph(
                            handlebars@,
                            *workspace,
                            *current,
                            *invocation,
                            node,
                            inst,
                            j as int,
                        );
                    }
                    return Err(
                        DependencyGraphConstructionError::TaskfileInvocationResolutionError(
                            tasks.id.duplicate(),
                            dep.invocation.duplicate(),
                        ),
                    );
                },
            };
            proof {
                lemma_resolved_is_there(*workspace, *tasks, dep.invocation.reference@);
            }
            let ghost before = nodes@;
            let ghost view = resolved_view(resolved);
            let ghost newcomer = resolved;
            let target = intern(&mut nodes, resolved);
            proof {
                assert(dep_target(*workspace, *tasks, inst.body.deps.0@[j as int]) == Some(view));
                assert(is_dep_of(handlebars@, *workspace, node, inst, j as int));
                assert(leads_to(handlebars@, *workspace, node, newcomer));
                lemma_reach_step(handlebars@, *workspace, *current, *invocation, node, newcomer);
                assert forall|i: int| 0 <= i < nodes@.len() implies is_reached(
                    handlebars@,
                    *workspace,
                    *current,
                    *invocation,
                    #[trigger] nodes@[i],
                ) by {
                    if i < before.len() {
                        assert(nodes@[i] == before[i]);
                    }
                }

                assert forall|t: int| 0 <= t < j implies (#[trigger] targets[t]) < nodes@.len()
                    && dep_target(*workspace, *tasks, inst.body.deps.0@[t]) == Some(
                    node_views(nodes@)[targets[t] as int],
                ) by {
                    assert(node_views(before)[targets[t] as int] == node_views(nodes@)[targets[t] as int]);
                }
                assert forall|i: int| 0 <= i < nodes@.len() implies workspace.has(
                    (#[trigger] nodes@[i]).reference.taskfile@,
                ) && workspace.taskfile(nodes@[i].reference.taskfile@).tasks.has(
                    nodes@[i].reference.name@,
                ) by {
                    if i < before.len() {
                        assert(nodes@[i] == before[i]);
                    }
                }
                let grown = targets.push(target);
                assert(grown.drop_last() =~= targets);
                assert forall|k: usize| nodes0.len() <= k < nodes@.len() implies grown.contains(k) by {
                    if k < before.len() {
                        assert(targets.contains(k));
                        let p = choose|p: int| 0 <= p < targets.len() && targets[p] == k;
                        assert(grown[p] == k);
                    } else {
                        assert(nodes@ == before.push(resolved));
                        assert(k == before.len());
                        assert(node_views(nodes@)[k as int] == view);
                        assert(node_views(nodes@)[target as int] == view);
                        assert(k == target);
                        assert(grown[targets.len() as int] == target);
                    }
                }
                targets = grown;
            }
            let _ = edge_set_insert(&mut successors, target);
            j += 1;
        }
        let ghost edges0 = graph_map(edges);
        proof {
            lemma_without(graph_keys(edges), next);
            assert(!graph_keys(edges).contains(next)) by {
                if graph_keys(edges).contains(next) {
                    let p = choose|p: int| 0 <= p < graph_keys(edges).len() && graph_keys(edges)[p] == next;
                    assert(up_to(next as nat)[p] == p);
                }
            }
        }
        edge_map_insert(&mut edges, next, successors);
        instantiations.push(inst);
        proof {
            assert forall|k: usize| 1 <= k < nodes@.len() implies #[trigger] is_needed(
                graph_map(edges),
                k,
            ) by {
                if k < nodes0.len() {
                    assert(is_needed(edges0, k));
                    let j = choose|j: usize| j < k && edges0.dom().contains(j)
                        && (#[trigger] edges0[j]).contains(k);
                    assert(j != next);
                    assert(graph_map(edges)[j] == edges0[j]);
                    assert(graph_map(edges).dom().contains(j) && graph_map(edges)[j].contains(k));
                } else {
                    lemma_ordered_set_holds(targets, k);
                    assert(graph_map(edges).dom().contains(next) && graph_map(edges)[next].contains(k));
                }
            }
            assert forall|p: usize, k: usize, later: usize|
                graph_map(edges).dom().contains(p) && #[trigger] graph_map(edges)[p].contains(later)
                    && 1 <= k < later implies #[trigger] is_needed_by(graph_map(edges), k, p) by {
                if p != next {
                    assert(edges0.dom().contains(p) && edges0[p].contains(later));
                    assert(is_needed_by(edges0, k, p));
                    let q = choose|q: usize| q <= p && edges0.dom().contains(q)
                        && (#[trigger] edges0[q]).contains(k);
                    assert(graph_map(edges)[q] == edges0[q]);
                    assert(graph_map(edges).dom().contains(q) && graph_map(edges)[q].contains(k));
                } else {
                    crate::run::lemma_ordered_set_members(targets, later);
                    let t = choose|t: int| 0 <= t < targets.len() && targets[t] == later;
                    assert(targets[t] < nodes@.len());
                    if k < nodes0.len() {
                        assert(is_needed(edges0, k));
                        let q = choose|q: usize| q < k && edges0.dom().contains(q)
                            && (#[trigger] edges0[q]).contains(k);
                        assert(graph_map(edges)[q] == edges0[q]);
                        assert(graph_map(edges).dom().contains(q) && graph_map(edges)[q].contains(k));
                    } else {
                        lemma_ordered_set_holds(targets, k);
                        assert(graph_map(edges).dom().contains(next) && graph_map(edges)[next].contains(k));
                    }
                }
            }
            if leaf {
                assert(targets.len() == 0);
                assert(ordered_set(targets) =~= Seq::empty());
            }
            assert(graph_keys(edges) =~= up_to((next + 1) as nat));
            assert(are_targets(*workspace, node_views(nodes@), node, inst, targets));
            assert forall|i: int| 0 <= i < next + 1 implies is_expanded(
                *workspace,
                node_views(nodes@),
                #[trigger] nodes@[i],
                instantiations@[i],
                graph_map(edges)[i as usize],
            ) by {
                if i < next {
                    assert(nodes@[i] == nodes0[i]);
                    assert(graph_map(edges)[i as usize] == edges0[i as usize]);
                    lemma_growth_keeps_expansion(
                        *workspace,
                        nodes0,
                        nodes@,
                        nodes0[i],
                        instantiations@[i],
                        edges0[i as usize],
                    );
                } else {
                    assert(nodes@[i] == node);
                }
            }
            assert forall|i: int| 0 <= i < next + 1 implies is_instantiation_of(
                handlebars@,
                *workspace,
                #[trigger] nodes@[i],
                instantiations@[i],
            ) by {
                if i < next {
                    assert(nodes@[i] == nodes0[i]);
                }
            }
            assert(nodes@[0] == nodes0[0]);
        }
        next += 1;
    }
    let graph = DependencyGraph { nodes, edges, instantiations };
    proof {
        assert(is_graph_of(handlebars@, *workspace, *current, *invocation, graph));
        lemma_root_is_not_stuck(
            handlebars@,
            *workspace,
            *current,
            *invocation,
            graph.nodes@[0],
            graph.instantiations@[0],
        );
    }
    Ok(graph)
}

/// In a closed workspace every import of a taskfile is bound to an id.
pub proof fn lemma_closed_imports(ws: Workspace, id: Seq<char>)
    requires
        ws.wf(),
        ws.closed(),
        ws.has(id),
    ensures
        ws.taskfile(id).imports_resolved(),
        ws.taskfile(id).wf(),
        ws.taskfile(id).id@ == id,
{
    ws.lemma_taskfile(id);
    let i = ws.position_of(id);
    assert(0 <= i < ws.ids().len() && ws.ids()[i] == id);
    let tf = ws.taskfiles()[i];
    assert forall|k: int| 0 <= k < tf.imports.values().len()
        implies (#[trigger] tf.imports.values()[k]) is Resolved by {
        let import = ws.taskfiles()[i].imports.values()[k];
        assert(import is Resolved && ws.has(import->Resolved_0@));
    }
}

/// In a taskfile whose imports are all bound to ids, the alias of a
/// reference, if it is known, is bound to an id.
pub proof fn lemma_import_resolved(tf: Taskfile, r: TaskRefView)
    requires
        tf.wf(),
        tf.imports_resolved(),
    ensures
        r matches TaskRefView::Imported { from, name } ==> (tf.imports.has(from) ==> tf.imports.at(
            from,
        ) is Resolved),
{
    match r {
        TaskRefView::Imported { from, name } => {
            if tf.imports.has(from) {
                let p = tf.imports.position_of(from);
                tf.imports.lemma_at_position(p);
            }
        },
        _ => {},
    }
}

/// What a reference resolves to is a task of a taskfile of the workspace.
pub proof fn lemma_resolved_is_there(ws: Workspace, current: Taskfile, r: TaskRefView)
    requires
        ws.wf(),
        ws.has(current.id@),
        ws.taskfile(current.id@) == current,
        resolves_to(ws, current, r) is Some,
    ensures
        ws.has((resolves_to(ws, current, r)->0).0.id@),
        ws.taskfile((resolves_to(ws, current, r)->0).0.id@) == (resolves_to(ws, current, r)->0).0,
        (resolves_to(ws, current, r)->0).0.tasks.has(ref_name(r)),
{
    match r {
        TaskRefView::Name(name) => {},
        TaskRefView::Imported { from, name } => {
            let id = current.imports.at(from)->Resolved_0@;
            ws.lemma_taskfile(id);
        },
    }
}

} // verus!
