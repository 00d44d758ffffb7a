//! The ready set of the parallel mode, and the decisions of its pump.

use crate::collections::{
    edge_map_get, edge_set_items, graph_map, lemma_push_to_set, lemma_without,
    lemma_without_keeps_order, wait_keys, wait_map, wait_map_get, wait_map_get_mut, wait_map_insert,
    wait_map_keys, wait_map_len, wait_map_new, wait_map_remove, without, EdgeMap, WaitMap,
};
use crate::run::dependency_resolution::topological_sort::{is_topological_order, placed_before};
use std::collections::HashMap;
use std::collections::HashSet;
use vstd::prelude::*;
use vstd::std_specs::hash::group_hash_axioms;
use vstd::std_specs::hash::spec_hash_keys_iter;
use vstd::std_specs::iter::IteratorSpec;

verus! {

broadcast use group_hash_axioms;

/// What a queue answers when asked for work.
#[derive(Debug, PartialEq, Eq)]
pub enum Poll<T> {
    /// The answer is there.
    Ready(T),
    /// Nothing can be said before a running task has finished.
    Pending,
}

/// The members of a set, each once, in the order in which the set hands
/// them out.
pub fn items_of(s: &HashSet<usize>) -> (r: Vec<usize>)
    ensures
        r@.to_set() == s@,
        r@.no_duplicates(),
{
    let mut out: Vec<usize> = Vec::new();
    let ghost all = spec_hash_keys_iter(s).remaining();
    for k in it: s.iter()
        invariant
            it.seq() == all,
            out@.len() == it.index(),
            forall|j: int| 0 <= j < out@.len() ==> out@[j] == *it.seq()[j],
    {
        out.push(*k);
    }
    proof {
        vstd::std_specs::hash::axiom_spec_hash_keys_iter(s);
        assert(out@ =~= all.unref());
    }
    out
}

/// The set that holds the items of a list.
pub fn set_of(items: &Vec<usize>) -> (r: HashSet<usize>)
    ensures
        r@ == items@.to_set(),
{
    let mut out: HashSet<usize> = HashSet::new();
    let mut i: usize = 0;
    assert(items@.take(0).to_set() =~= Set::empty());
    while i < items.len()
        invariant
            i <= items.len(),
            out@ == items@.take(i as int).to_set(),
        decreases items.len() - i,
    {
        out.insert(items[i]);
        proof {
            lemma_push_to_set(items@.take(i as int), items@[i as int]);
            assert(items@.take(i + 1) =~= items@.take(i as int).push(items@[i as int]));
        }
        i += 1;
    }
    assert(items@.take(items@.len() as int) =~= items@);
    out
}

/// The task at position `i` of `order` is the first that waits for nothing.
pub open spec fn is_first_ready(order: Seq<usize>, waiting: Map<usize, Set<usize>>, i: int) -> bool {
    &&& 0 <= i < order.len()
    &&& waiting[order[i]] =~= Set::empty()
    &&& forall|j: int| 0 <= j < i ==> !(waiting[#[trigger] order[j]] =~= Set::empty())
}

/// Every task of `order` waits for something.
pub open spec fn all_wait(order: Seq<usize>, waiting: Map<usize, Set<usize>>) -> bool {
    forall|j: int| 0 <= j < order.len() ==> !(waiting[#[trigger] order[j]] =~= Set::empty())
}

/// The tasks that wait to be run, in the order in which they were added,
/// each with the tasks it still waits for.
pub struct TaskTreeQueue {
    /// Each waiting task with its unfulfilled predecessors.
    queue: WaitMap,
    /// For each predecessor, the tasks that were added as waiting for it.
    parents: HashMap<usize, HashSet<usize>>,
}

impl TaskTreeQueue {
    /// The waiting tasks, in the order in which they were added.
    pub closed spec fn order(&self) -> Seq<usize> {
        wait_keys(self.queue)
    }

    /// For each waiting task, the tasks it still waits for.
    pub closed spec fn waiting(&self) -> Map<usize, Set<usize>> {
        wait_map(self.queue)
    }

    /// The tasks that some task was added as waiting for, and that were not
    /// marked as fulfilled since.
    pub closed spec fn awaited(&self) -> Set<usize> {
        self.parents@.dom()
    }

    /// The tasks that were added as waiting for `task`.
    pub closed spec fn dependents(&self, task: usize) -> Set<usize> {
        self.parents@[task]@
    }

    /// The two directions agree: the waiting tasks are those of `order`, each
    /// once, and whoever waits for a task is recorded as its dependent.
    pub closed spec fn wf(&self) -> bool {
        &&& self.order().no_duplicates()
        &&& forall|k: usize| self.order().contains(k) <==> self.waiting().dom().contains(k)
        &&& forall|t: usize, d: usize|
            self.waiting().dom().contains(t) && #[trigger] self.waiting()[t].contains(d)
                ==> self.parents@.dom().contains(d) && self.parents@[d]@.contains(t)
    }

    /// The position of the first waiting task that waits for nothing, if
    /// there is one.
    pub open spec fn first_ready(&self, i: int) -> bool {
        is_first_ready(self.order(), self.waiting(), i)
    }

    /// No waiting task is ready.
    pub open spec fn none_ready(&self) -> bool {
        all_wait(self.order(), self.waiting())
    }

    /// A queue without tasks.
    pub fn new() -> (r: Self)
        ensures
            r.wf(),
            r.order() =~= Seq::empty(),
            r.waiting() =~= Map::empty(),
            r.awaited() =~= Set::empty(),
    {
        TaskTreeQueue { queue: wait_map_new(), parents: HashMap::new() }
    }

    /// Adds a task that waits for each of `deps`.
    pub fn add(&mut self, task: usize, deps: Vec<usize>)
        requires
            old(self).wf(),
            !old(self).waiting().dom().contains(task),
        ensures
            final(self).wf(),
            final(self).order() == old(self).order().push(task),
            final(self).waiting() == old(self).waiting().insert(task, deps@.to_set()),
            final(self).awaited() == old(self).awaited().union(deps@.to_set()),
    {
        let set = set_of(&deps);
        self.add_set(task, set)
    }

    /// Adds a task that waits for each member of `deps`.
    pub fn add_set(&mut self, task: usize, deps: HashSet<usize>)
        requires
            old(self).wf(),
            !old(self).waiting().dom().contains(task),
        ensures
            final(self).wf(),
            final(self).order() == old(self).order().push(task),
            final(self).waiting() == old(self).waiting().insert(task, deps@),
            final(self).awaited() == old(self).awaited().union(deps@),
    {
        let items = items_of(&deps);
        let ghost parents0 = self.parents@;
        let mut i: usize = 0;
        assert(items@.take(0).to_set() =~= Set::empty());
        while i < items.len()
            invariant
                i <= items.len(),
                self.queue == old(self).queue,
                self.parents@.dom() =~= parents0.dom().union(items@.take(i as int).to_set()),
                forall|d: usize, t: usize|
                    parents0.dom().contains(d) && #[trigger] parents0[d]@.contains(t)
                        ==> self.parents@[d]@.contains(t),
                forall|j: int| 0 <= j < i ==> self.parents@[#[trigger] items@[j]]@.contains(task),
            decreases items.len() - i,
        {
            let dep = items[i];
            let mut set = match self.parents.remove(&dep) {
                Some(s) => s,
                None => HashSet::new(),
            };
            set.insert(task);
            self.parents.insert(dep, set);
            proof {
                lemma_push_to_set(items@.take(i as int), dep);
                assert(items@.take(i + 1) =~= items@.take(i as int).push(dep));
            }
            i += 1;
        }
        assert(items@.take(items@.len() as int) =~= items@);
        proof {
            lemma_without(old(self).order(), task);
        }
        wait_map_insert(&mut self.queue, task, deps);
        proof {
            let order0 = old(self).order();
            let order1 = self.order();
            assert(order1 == order0.push(task));
            assert(!order0.contains(task));
            assert forall|k: usize| order1.contains(k) <==> self.waiting().dom().contains(k) by {
                lemma_push_to_set(order0, task);
                assert(order1.to_set().contains(k) <==> order0.to_set().insert(task).contains(k));
            }
            assert forall|t: usize, d: usize|
                self.waiting().dom().contains(t) && #[trigger] self.waiting()[t].contains(
                    d,
                ) implies self.parents@.dom().contains(d) && self.parents@[d]@.contains(t) by {
                if t == task {
                    assert(items@.to_set().contains(d));
                    let j = choose|j: int| 0 <= j < items@.len() && items@[j] == d;
                    assert(self.parents@[items@[j]]@.contains(task));
                } else {
                    assert(old(self).waiting()[t].contains(d));
                    assert(parents0[d]@.contains(t));
                }
            }
        }
    }

    /// Records that `task`, which was taken before, has finished: no task
    /// waits for it any longer.
    pub fn mark_fulfilled(&mut self, task: usize)
        requires
            old(self).wf(),
            !old(self).waiting().dom().contains(task),
        ensures
            final(self).wf(),
            final(self).order() == old(self).order(),
            final(self).waiting().dom() == old(self).waiting().dom(),
            forall|t: usize|
                old(self).waiting().dom().contains(t) ==> #[trigger] final(self).waiting()[t]
                    == old(self).waiting()[t].remove(task),
            final(self).awaited() == old(self).awaited().remove(task),
    {
        let ghost waiting0 = self.waiting();
        let ghost parents0 = self.parents@;
        let parents = match self.parents.remove(&task) {
            Some(p) => p,
            None => {
                proof {
                    assert forall|t: usize| waiting0.dom().contains(t) implies waiting0[t]
                        == #[trigger] waiting0[t].remove(task) by {
                        if waiting0[t].contains(task) {
                            assert(parents0.dom().contains(task));
                        }
                        assert(waiting0[t] =~= waiting0[t].remove(task));
                    }
                    assert(self.awaited() =~= old(self).awaited().remove(task));
                }
                return ;
            },
        };
        let items = items_of(&parents);
        let mut i: usize = 0;
        while i < items.len()
            invariant
                i <= items.len(),
                self.parents@ == parents0.remove(task),
                self.order() == old(self).order(),
                self.waiting().dom() == waiting0.dom(),
                forall|t: usize|
                    waiting0.dom().contains(t) ==> #[trigger] self.waiting()[t] == if items@.take(
                        i as int,
                    ).contains(t) {
                        waiting0[t].remove(task)
                    } else {
                        waiting0[t]
                    },
            decreases items.len() - i,
        {
            let parent = items[i];
            let ghost before = self.waiting();
            match wait_map_get_mut(&mut self.queue, parent) {
                Some(deps) => {
                    deps.remove(&task);
                },
                None => {},
            }
            proof {
                let now = self.waiting();
                let seen = items@.take(i as int);
                let seen1 = items@.take(i + 1);
                assert(seen1 =~= seen.push(parent));
                assert(now.dom() =~= waiting0.dom());
                assert forall|t: usize| waiting0.dom().contains(t) implies #[trigger] now[t] == if seen1.contains(
                    t,
                ) {
                    waiting0[t].remove(task)
                } else {
                    waiting0[t]
                } by {
                    assert(seen1.contains(t) <==> (seen.contains(t) || t == parent)) by {
                        lemma_push_to_set(seen, parent);
                        assert(seen1.to_set().contains(t) <==> seen.to_set().insert(parent).contains(t));
                    }
                    if t == parent {
                        assert(now[t] == before[t].remove(task));
                        assert(waiting0[t].remove(task).remove(task) =~= waiting0[t].remove(task));
                    } else {
                        assert(now[t] == before[t]);
                    }
                }
            }
            i += 1;
        }
        proof {
            assert(items@.take(items@.len() as int) =~= items@);
            let now = self.waiting();
            assert forall|t: usize| waiting0.dom().contains(t) implies #[trigger] now[t]
                == waiting0[t].remove(task) by {
                if !items@.contains(t) {
                    if waiting0[t].contains(task) {
                        assert(parents0[task]@.contains(t));
                        assert(items@.to_set().contains(t));
                    }
                    assert(waiting0[t] =~= waiting0[t].remove(task));
                }
            }
            assert forall|t: usize, d: usize|
                now.dom().contains(t) && #[trigger] now[t].contains(d) implies self.parents@.dom().contains(
                d,
            ) && self.parents@[d]@.contains(t) by {
                assert(waiting0[t].contains(d));
                assert(d != task);
            }
            assert(self.awaited() =~= old(self).awaited().remove(task));
        }
    }

    /// Takes the first waiting task that waits for nothing. Without waiting
    /// tasks the answer is `Ready(None)`; with waiting tasks of which none is
    /// ready it is `Pending`.
    pub fn take_next_ready_task(&mut self) -> (r: Poll<Option<usize>>)
        requires
            old(self).wf(),
        ensures
            final(self).wf(),
            final(self).awaited() == old(self).awaited(),
            match r {
                Poll::Ready(None) => old(self).order().len() == 0
                    && final(self).order() == old(self).order()
                    && final(self).waiting() == old(self).waiting(),
                Poll::Pending => old(self).order().len() > 0 && old(self).none_ready()
                    && final(self).order() == old(self).order()
                    && final(self).waiting() == old(self).waiting(),
                Poll::Ready(Some(task)) => {
                    &&& exists|i: int| old(self).first_ready(i) && old(self).order()[i] == task
                    &&& final(self).order() == without(old(self).order(), task)
                    &&& final(self).waiting() == old(self).waiting().remove(task)
                },
            },
    {
        if wait_map_len(&self.queue) == 0 {
            return Poll::Ready(None);
        }
        let keys = wait_map_keys(&self.queue);
        let mut i: usize = 0;
        let mut next: Option<usize> = None;
        while i < keys.len()
            invariant_except_break
                next is None,
                forall|j: int| 0 <= j < i ==> !(self.waiting()[#[trigger] self.order()[j]]
                    =~= Set::empty()),
            invariant
                i <= keys.len(),
                keys@ == self.order(),
                *self == *old(self),
                self.wf(),
            ensures
                match next {
                    Some(task) => i < keys.len() && keys@[i as int] == task && self.first_ready(i as int),
                    None => self.none_ready(),
                },
            decreases keys.len() - i,
        {
            let task = keys[i];
            assert(self.order().contains(task));
            match wait_map_get(&self.queue, task) {
                Some(deps) => {
                    if deps.is_empty() {
                        next = Some(task);
                        assert(deps@ =~= Set::empty());
                        break ;
                    }
                    assert(!(deps@ =~= Set::empty()));
                },
                None => {},
            }
            i += 1;
        }
        match next {
            None => Poll::Pending,
            Some(task) => {
                proof {
                    lemma_without(self.order(), task);
                }
                let _ = wait_map_remove(&mut self.queue, task);
                proof {
                    let order1 = self.order();
                    let order0 = old(self).order();
                    assert(order1 == without(order0, task));
                    assert forall|k: usize| order1.contains(k) <==> self.waiting().dom().contains(k) by {
                        assert(order0.contains(k) <==> old(self).waiting().dom().contains(k));
                        assert(without(order0, task).contains(k) <==> (order0.contains(k) && k != task));
                    }
                    assert(old(self).first_ready(i as int));
                }
                Poll::Ready(Some(task))
            },
        }
    }

    /// The number of waiting tasks.
    pub fn queue_len(&self) -> (r: usize)
        ensures
            r == self.order().len(),
    {
        wait_map_len(&self.queue)
    }

    /// The number of tasks that are waited for.
    pub fn parents_len(&self) -> (r: usize)
        ensures
            r == self.awaited().len(),
    {
        self.parents.len()
    }

    /// How many tasks `task` still waits for, if it is waiting.
    pub fn waiting_count(&self, task: usize) -> (r: Option<usize>)
        ensures
            match r {
                Some(n) => self.waiting().dom().contains(task) && n == self.waiting()[task].len(),
                None => !self.waiting().dom().contains(task),
            },
    {
        match wait_map_get(&self.queue, task) {
            Some(deps) => Some(deps.len()),
            None => None,
        }
    }

    /// How many tasks were added as waiting for `task`, if any was.
    pub fn dependents_count(&self, task: usize) -> (r: Option<usize>)
        ensures
            match r {
                Some(n) => self.awaited().contains(task) && n == self.dependents(task).len(),
                None => !self.awaited().contains(task),
            },
    {
        match self.parents.get(&task) {
            Some(p) => Some(p.len()),
            None => None,
        }
    }
}

/// What the pump has to do next.
#[derive(Debug)]
pub enum Action {
    /// Start the task with this number.
    Spawn(usize),
    /// Wait until a running task has finished, and report it.
    Wait,
    /// Nothing runs and nothing will be started: the run is over.
    Finish(Outcome),
}

/// How a run ended.
#[derive(Debug)]
pub enum Outcome {
    /// Every task ran.
    Done,
    /// The run was asked to stop before every task had been started.
    Interrupted,
    /// Tasks wait for tasks that will never finish.
    Stalled,
    /// These tasks failed, the first failure first.
    Failed(Vec<usize>),
}

/// The state of a parallel run: what waits, what runs, and whether new work
/// may still be started.
pub struct Scheduler {
    tq: TaskTreeQueue,
    running: HashSet<usize>,
    max_concurrency: usize,
    interrupted: bool,
    stalled: bool,
    draining: bool,
    failures: Vec<usize>,
    deps: Ghost<Map<usize, Set<usize>>>,
    finished: Ghost<Set<usize>>,
}

/// The tasks that `task` depends on in `graph`.
pub open spec fn deps_in(graph: Map<usize, Seq<usize>>, task: usize) -> Set<usize> {
    if graph.dom().contains(task) {
        graph[task].to_set()
    } else {
        Set::empty()
    }
}

impl Scheduler {
    /// The tasks that have not been started, in the order in which they will
    /// be considered.
    pub closed spec fn pending(&self) -> Seq<usize> {
        self.tq.order()
    }

    /// The tasks that were started and have not been reported as finished.
    pub closed spec fn running(&self) -> Set<usize> {
        self.running@
    }

    /// The tasks that were reported as finished without error.
    pub closed spec fn finished(&self) -> Set<usize> {
        self.finished@
    }

    /// The tasks that were reported as failed, in the order of the reports.
    pub closed spec fn failures(&self) -> Seq<usize> {
        self.failures@
    }

    /// For each task of the run, the tasks it depends on.
    pub closed spec fn deps(&self) -> Map<usize, Set<usize>> {
        self.deps@
    }

    /// The run was asked to stop.
    pub closed spec fn interrupted(&self) -> bool {
        self.interrupted
    }

    /// The run came to a halt with tasks that wait for tasks that neither
    /// run nor are ready.
    pub closed spec fn stalled(&self) -> bool {
        self.stalled
    }

    /// For each pending task, the tasks it still waits for.
    pub closed spec fn waiting_for(&self) -> Map<usize, Set<usize>> {
        self.tq.waiting()
    }

    /// No task will be started any more.
    pub closed spec fn draining(&self) -> bool {
        self.draining
    }

    /// The limit on the number of running tasks.
    pub closed spec fn limit(&self) -> usize {
        self.max_concurrency
    }

    /// What holds between the steps of a run: a pending task waits at least
    /// for those of its dependencies that have not finished, and a running
    /// task was started after all of its dependencies had finished.
    pub closed spec fn wf(&self) -> bool {
        &&& self.tq.wf()
        &&& self.max_concurrency > 0
        &&& self.running@.finite()
        &&& self.running@.len() <= self.max_concurrency
        &&& forall|t: usize| self.running@.contains(t) ==> !self.tq.waiting().dom().contains(t)
        &&& forall|t: usize| self.running@.contains(t) ==> self.deps@.dom().contains(t)
        &&& forall|t: usize, d: usize|
            self.running@.contains(t) && #[trigger] self.deps@[t].contains(d)
                ==> self.finished@.contains(d)
        &&& forall|t: usize| self.tq.waiting().dom().contains(t) ==> self.deps@.dom().contains(t)
        &&& forall|t: usize, d: usize|
            self.tq.waiting().dom().contains(t) && #[trigger] self.deps@[t].contains(d)
                ==> self.finished@.contains(d) || self.tq.waiting()[t].contains(d)
        &&& self.failures@.len() > 0 ==> self.draining
        &&& self.interrupted ==> self.draining
        &&& self.stalled ==> self.draining && self.failures@.len() == 0 && self.running@.len() == 0
        &&& self.draining && !self.interrupted && !self.stalled && self.failures@.len() == 0
            ==> self.tq.order().len() == 0
    }

    /// While tasks are still started, whatever a pending task waits for
    /// runs, or is pending before it. That is so from the start where the
    /// tasks stand in an order in which each comes after all that it
    /// depends on.
    pub open spec fn ordered(&self) -> bool {
        !self.draining() ==> forall|i: int, d: usize|
            0 <= i < self.pending().len() && #[trigger] self.waiting_for()[self.pending()[i]].contains(d)
                ==> self.running().contains(d) || placed_before(self.pending(), d, i)
    }

    /// A run that still starts tasks has neither failed, nor been asked to
    /// stop, nor come to a halt; and a run of which no task has failed and
    /// that was not asked to stop and has not come to a halt still starts
    /// tasks while any is pending.
    pub proof fn lemma_feeding_run(&self)
        requires
            self.wf(),
        ensures
            !self.draining() ==> self.failures().len() == 0 && !self.interrupted() && !self.stalled(),
            self.draining() && self.failures().len() == 0 && !self.interrupted() && !self.stalled()
                ==> self.pending().len() == 0,
            self.running().finite(),
            self.running().len() <= self.limit(),
            self.limit() > 0,
            forall|t: usize, d: usize|
                self.running().contains(t) && #[trigger] self.deps()[t].contains(d)
                    ==> self.finished().contains(d),
    {
    }

    /// A run in order cannot come to a halt: where nothing runs and tasks
    /// are pending, the first of them waits for nothing.
    pub proof fn lemma_ordered_run_goes_on(&self)
        requires
            self.wf(),
            self.ordered(),
            !self.draining(),
            self.running().len() == 0,
            self.pending().len() > 0,
        ensures
            is_first_ready(self.pending(), self.waiting_for(), 0),
            !all_wait(self.pending(), self.waiting_for()),
    {
        let first = self.pending()[0];
        assert(self.running() =~= Set::empty());
        assert forall|d: usize| !self.waiting_for()[first].contains(d) by {
            if self.waiting_for()[self.pending()[0]].contains(d) {
                assert(self.running().contains(d) || placed_before(self.pending(), d, 0));
            }
        }
        assert(self.waiting_for()[first] =~= Set::empty());
    }

    /// A run of the tasks of `queue`, at most `max_concurrency` of them at a
    /// time, where each task depends on its successors in `deps_graph`.
    pub fn new(max_concurrency: usize, queue: Vec<usize>, deps_graph: &EdgeMap) -> (r: Self)
        requires
            max_concurrency > 0,
            queue@.no_duplicates(),
        ensures
            r.wf(),
            r.limit() == max_concurrency,
            r.pending() == queue@,
            r.running() =~= Set::empty(),
            r.finished() =~= Set::empty(),
            r.failures() =~= Seq::empty(),
            !r.interrupted(),
            !r.stalled(),
            !r.draining(),
            r.waiting_for() == r.deps(),
            r.deps().dom() == queue@.to_set(),
            forall|t: usize|
                queue@.contains(t) ==> #[trigger] r.deps()[t] == deps_in(graph_map(*deps_graph), t),
            is_topological_order(graph_map(*deps_graph), queue@) ==> r.ordered(),
    {
        let ghost graph = graph_map(*deps_graph);
        let mut tq = TaskTreeQueue::new();
        let ghost mut deps: Map<usize, Set<usize>> = Map::empty();
        let mut i: usize = 0;
        assert(queue@.take(0) =~= Seq::empty());
        assert(queue@.take(0).to_set() =~= Set::empty());
        while i < queue.len()
            invariant
                i <= queue.len(),
                queue@.no_duplicates(),
                graph == graph_map(*deps_graph),
                tq.wf(),
                tq.order() == queue@.take(i as int),
                tq.waiting() == deps,
                deps.dom() == queue@.take(i as int).to_set(),
                forall|t: usize| #[trigger] deps.dom().contains(t) ==> deps[t] == deps_in(graph, t),
            decreases queue.len() - i,
        {
            let task = queue[i];
            let task_deps = match edge_map_get(deps_graph, task) {
                Some(successors) => edge_set_items(successors),
                None => {
                    let none: Vec<usize> = Vec::new();
                    assert(none@.to_set() =~= Set::empty());
                    none
                },
            };
            proof {
                let seen = queue@.take(i as int);
                if seen.contains(task) {
                    let j = choose|j: int| 0 <= j < seen.len() && seen[j] == task;
                    assert(queue@[j] == queue@[i as int]);
                }
                lemma_push_to_set(seen, task);
                assert(queue@.take(i + 1) =~= seen.push(task));
                deps = deps.insert(task, task_deps@.to_set());
            }
            tq.add(task, task_deps);
            i += 1;
        }
        assert(queue@.take(queue@.len() as int) =~= queue@);
        let running: HashSet<usize> = HashSet::new();
        let r = Scheduler {
            tq,
            running,
            max_concurrency,
            interrupted: false,
            stalled: false,
            draining: false,
            failures: Vec::new(),
            deps: Ghost(deps),
            finished: Ghost(Set::empty()),
        };
        assert(r.running@.len() == 0);
        proof {
            if is_topological_order(graph, queue@) {
                assert forall|i: int, d: usize|
                    0 <= i < r.pending().len() && #[trigger] r.waiting_for()[r.pending()[i]].contains(
                        d,
                    ) implies placed_before(r.pending(), d, i) by {
                    let t = queue@[i];
                    assert(queue@.contains(t));
                    assert(deps[t] == deps_in(graph, t));
                    assert(graph[t].contains(d));
                    assert(crate::run::dependency_resolution::topological_sort::has_edge(graph, t, d));
                }
            }
        }
        r
    }

    fn outcome(&self) -> (o: Outcome)
        ensures
            match o {
                Outcome::Failed(tasks) => tasks@ == self.failures@ && tasks@.len() > 0,
                Outcome::Stalled => self.failures@.len() == 0 && self.stalled,
                Outcome::Interrupted => self.failures@.len() == 0 && !self.stalled && self.interrupted,
                Outcome::Done => self.failures@.len() == 0 && !self.stalled && !self.interrupted,
            },
    {
        if self.failures.len() > 0 {
            let mut tasks: Vec<usize> = Vec::new();
            let mut i: usize = 0;
            while i < self.failures.len()
                invariant
                    i <= self.failures.len(),
                    tasks@ == self.failures@.take(i as int),
                decreases self.failures.len() - i,
            {
                tasks.push(self.failures[i]);
                assert(self.failures@.take(i + 1) =~= self.failures@.take(i as int).push(
                    self.failures@[i as int],
                ));
                i += 1;
            }
            assert(self.failures@.take(self.failures@.len() as int) =~= self.failures@);
            Outcome::Failed(tasks)
        } else if self.stalled {
            Outcome::Stalled
        } else if self.interrupted {
            Outcome::Interrupted
        } else {
            Outcome::Done
        }
    }

    /// A run in order is still in order after one of its pending tasks has
    /// been started.
    proof fn lemma_spawn_keeps_order(&self, after: Scheduler, task: usize)
        requires
            self.ordered(),
            !self.draining(),
            self.pending().no_duplicates(),
            forall|k: usize| self.pending().contains(k) <==> self.waiting_for().dom().contains(k),
            after.draining() == self.draining(),
            after.pending() == without(self.pending(), task),
            after.running() == self.running().insert(task),
            after.waiting_for() == self.waiting_for().remove(task),
        ensures
            after.ordered(),
    {
        let before = self.pending();
        let now = after.pending();
        lemma_without(before, task);
        assert forall|i: int, d: usize|
            0 <= i < now.len() && #[trigger] after.waiting_for()[now[i]].contains(d)
                implies after.running().contains(
            d,
        ) || placed_before(now, d, i) by {
            let t = now[i];
            assert(now.contains(t));
            assert(before.contains(t) && t != task);
            let k = choose|k: int| 0 <= k < before.len() && before[k] == t;
            assert(after.waiting_for()[t] == self.waiting_for()[t]);
            assert(self.waiting_for()[self.pending()[k]].contains(d));
            if d != task && !self.running().contains(d) {
                assert(placed_before(before, d, k));
                let j = choose|j: int| 0 <= j < k && before[j] == d;
                lemma_without_keeps_order(before, task, j, k);
                let (x, y) = choose|x: int, y: int|
                    0 <= x < y < now.len() && #[trigger] now[x] == before[j] && #[trigger] now[y]
                        == before[k];
                assert(y == i);
                assert(now[x] == d);
            }
        }
    }

    /// Decides what the pump does next. `run_while` is false once the run
    /// has been asked to stop.
    ///
    /// A task is started only while the run has neither failed nor been
    /// asked to stop, below the limit, and after every task it depends on
    /// has finished. The run ends only when nothing is running: as failed if
    /// a task failed, else as interrupted if it was asked to stop.
    pub fn next_action(&mut self, run_while: bool) -> (r: Action)
        requires
            old(self).wf(),
        ensures
            final(self).wf(),
            final(self).deps() == old(self).deps(),
            final(self).finished() == old(self).finished(),
            final(self).failures() == old(self).failures(),
            final(self).limit() == old(self).limit(),
            old(self).draining() ==> final(self).draining(),
            !run_while ==> final(self).draining(),
            old(self).ordered() ==> final(self).ordered() && final(self).stalled() == old(self).stalled(),
            final(self).interrupted() == (old(self).interrupted() || (!run_while && !old(self).draining())),
            final(self).stalled() == (old(self).stalled() || (run_while && !old(self).draining()
                && old(self).running().len() == 0 && old(self).pending().len() > 0 && all_wait(
                old(self).pending(),
                old(self).waiting_for(),
            ))),
            match r {
                Action::Spawn(task) => {
                    &&& run_while
                    &&& !old(self).draining()
                    &&& !final(self).draining()
                    &&& old(self).running().len() < old(self).limit()
                    &&& exists|i: int|
                        is_first_ready(old(self).pending(), old(self).waiting_for(), i)
                            && old(self).pending()[i] == task
                    &&& old(self).pending().contains(task)
                    &&& !old(self).running().contains(task)
                    &&& forall|d: usize| #[trigger]
                        final(self).deps()[task].contains(d) ==> final(self).finished().contains(d)
                    &&& final(self).running() == old(self).running().insert(task)
                    &&& final(self).pending() == without(old(self).pending(), task)
                    &&& final(self).waiting_for() == old(self).waiting_for().remove(task)
                },
                Action::Wait => {
                    &&& final(self).draining() == (old(self).draining() || !run_while || (old(
                        self,
                    ).running().len() < old(self).limit() && old(self).pending().len() == 0))
                    &&& final(self).running() == old(self).running()
                    &&& final(self).running().len() > 0
                    &&& final(self).pending() == old(self).pending()
                    &&& final(self).waiting_for() == old(self).waiting_for()
                    &&& final(self).draining() || old(self).running().len() >= old(self).limit() || (
                    old(self).pending().len() > 0 && all_wait(
                        old(self).pending(),
                        old(self).waiting_for(),
                    ))
                },
                Action::Finish(outcome) => {
                    &&& final(self).running() == old(self).running()
                    &&& final(self).running() =~= Set::empty()
                    &&& final(self).pending() == old(self).pending()
                    &&& final(self).waiting_for() == old(self).waiting_for()
                    &&& final(self).draining()
                    &&& match outcome {
                        Outcome::Failed(tasks) => tasks@ == final(self).failures() && tasks@.len() > 0,
                        Outcome::Stalled => final(self).failures().len() == 0 && final(self).stalled(),
                        Outcome::Interrupted => final(self).failures().len() == 0
                            && !final(self).stalled() && final(self).interrupted(),
                        Outcome::Done => final(self).failures().len() == 0 && !final(self).stalled()
                            && !final(self).interrupted() && old(self).pending().len() == 0,
                    }
                },
            },
    {
        if !self.draining {
            if !run_while {
                self.interrupted = true;
                self.draining = true;
            } else if self.running.len() < self.max_concurrency {
                match self.tq.take_next_ready_task() {
                    Poll::Ready(Some(task)) => {
                        proof {
                            lemma_without(old(self).tq.order(), task);
                            assert(old(self).tq.waiting()[task] =~= Set::empty());
                            assert(old(self).tq.order().contains(task));
                        }
                        self.running.insert(task);
                        proof {
                            if old(self).ordered() {
                                old(self).lemma_spawn_keeps_order(*self, task);
                            }
                        }
                        return Action::Spawn(task);
                    },
                    Poll::Pending => {
                        if self.running.len() > 0 {
                            assert(self.pending() == old(self).pending());
                            assert(self.waiting_for() == old(self).waiting_for());
                            assert(self.running() == old(self).running());
                            return Action::Wait;
                        }
                        proof {
                            if old(self).ordered() {
                                assert(old(self).running() =~= Set::empty());
                                old(self).lemma_ordered_run_goes_on();
                            }
                        }
                        self.stalled = true;
                        self.draining = true;
                    },
                    Poll::Ready(None) => {
                        self.draining = true;
                    },
                }
            } else {
                return Action::Wait;
            }
        }
        if self.running.len() == 0 {
            assert(self.running@ =~= Set::empty());
            Action::Finish(self.outcome())
        } else {
            Action::Wait
        }
    }

    /// Records that a running task has finished, without error if `ok`.
    /// Returns whether the tasks that still run are to be aborted: that is
    /// so when this is the first failure of a run that was still starting
    /// tasks. After a failure no task is started.
    pub fn job_finished(&mut self, task: usize, ok: bool) -> (abort_running: bool)
        requires
            old(self).wf(),
            old(self).running().contains(task),
        ensures
            final(self).wf(),
            final(self).deps() == old(self).deps(),
            final(self).limit() == old(self).limit(),
            final(self).pending() == old(self).pending(),
            final(self).interrupted() == old(self).interrupted(),
            final(self).stalled() == old(self).stalled(),
            final(self).running() == old(self).running().remove(task),
            final(self).draining() == (old(self).draining() || !ok),
            ok ==> final(self).finished() == old(self).finished().insert(task)
                && final(self).failures() == old(self).failures(),
            !ok ==> final(self).finished() == old(self).finished()
                && final(self).failures() == old(self).failures().push(task),
            abort_running == (!ok && !old(self).draining()),
            final(self).waiting_for().dom() == old(self).waiting_for().dom(),
            forall|t: usize|
                old(self).waiting_for().dom().contains(t) ==> #[trigger] final(self).waiting_for()[t] == (
                if ok && !old(self).draining() {
                    old(self).waiting_for()[t].remove(task)
                } else {
                    old(self).waiting_for()[t]
                }),
            old(self).ordered() ==> final(self).ordered(),
    {
        self.running.remove(&task);
        if ok {
            if !self.draining {
                self.tq.mark_fulfilled(task);
            }
            proof {
                self.finished@ = self.finished@.insert(task);
                if old(self).ordered() && !old(self).draining() {
                    assert forall|i: int, d: usize|
                        0 <= i < self.pending().len() && self.waiting_for().dom().contains(
                            self.pending()[i],
                        ) && #[trigger] self.waiting_for()[self.pending()[i]].contains(d)
                            implies self.running().contains(d) || placed_before(self.pending(), d, i) by {
                        let t = self.pending()[i];
                        assert(old(self).pending().contains(t));
                        assert(self.waiting_for()[t] == old(self).waiting_for()[t].remove(task));
                        assert(old(self).waiting_for()[old(self).pending()[i]].contains(d));
                    }
                    assert forall|i: int| 0 <= i < self.pending().len() implies self.waiting_for().dom().contains(
                        #[trigger] self.pending()[i],
                    ) by {
                        assert(self.pending().contains(self.pending()[i]));
                    }
                    assert(self.ordered());
                }
            }
            false
        } else {
            self.failures.push(task);
            let first = !self.draining;
            self.draining = true;
            first
        }
    }

    /// The number of running tasks.
    pub fn running_len(&self) -> (r: usize)
        requires
            self.wf(),
        ensures
            r == self.running().len(),
            r <= self.limit(),
    {
        self.running.len()
    }

    /// Whether `task` is running.
    pub fn is_running(&self, task: usize) -> (r: bool)
        ensures
            r == self.running().contains(task),
    {
        self.running.contains(&task)
    }
}

} // verus!
