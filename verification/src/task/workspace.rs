//! The taskfiles of a run, by id, and the resolution of references among them.

use crate::strmap::StrMap;
use crate::task::invocation::{args_view, resolved_view, ResolvedTaskInvocation, TaskInvocation};
use crate::task::task::Task;
use crate::task::task_ref::{ref_name, TaskRef, TaskRefView, TaskfileId};
use crate::task::taskfile::{Taskfile, TaskfileImportRef};
use vstd::prelude::*;

verus! {

/// The taskfiles that were loaded, each under its id.
#[derive(Debug)]
pub struct Workspace {
    tasks: Vec<Taskfile>,
}

/// What a reference that stands in `current` refers to: a task of
/// `current` itself, or a task of the taskfile that the alias is bound to.
/// `None` where the alias is unknown or not bound to a taskfile of the
/// workspace, or where the taskfile has no task of that name.
pub open spec fn resolves_to(ws: Workspace, current: Taskfile, r: TaskRefView) -> Option<(Taskfile, Task)> {
    match r {
        TaskRefView::Name(name) => if current.tasks.has(name) {
            Some((current, current.tasks.at(name)))
        } else {
            None
        },
        TaskRefView::Imported { from, name } => if current.imports.has(from) && current.imports.at(
            from,
        ) is Resolved && ws.has(current.imports.at(from)->Resolved_0@) && ws.taskfile(
            current.imports.at(from)->Resolved_0@,
        ).tasks.has(name) {
            Some(
                (
                    ws.taskfile(current.imports.at(from)->Resolved_0@),
                    ws.taskfile(current.imports.at(from)->Resolved_0@).tasks.at(name),
                ),
            )
        } else {
            None
        },
    }
}

impl Workspace {
    /// The taskfiles, in the order in which they were loaded.
    pub closed spec fn taskfiles(&self) -> Seq<Taskfile> {
        self.tasks@
    }

    /// The ids of the taskfiles.
    pub open spec fn ids(&self) -> Seq<Seq<char>> {
        Seq::new(self.taskfiles().len(), |i: int| self.taskfiles()[i].id@)
    }

    /// No id occurs twice, and every taskfile is well formed.
    pub open spec fn wf(&self) -> bool {
        &&& self.ids().no_duplicates()
        &&& forall|i: int| 0 <= i < self.taskfiles().len() ==> (#[trigger] self.taskfiles()[i]).wf()
    }

    /// Whether a taskfile of this id was loaded.
    pub open spec fn has(&self, id: Seq<char>) -> bool {
        self.ids().contains(id)
    }

    /// The position of the taskfile of this id, which was loaded.
    pub open spec fn position_of(&self, id: Seq<char>) -> int {
        choose|i: int| 0 <= i < self.ids().len() && self.ids()[i] == id
    }

    /// The taskfile of this id, which was loaded.
    pub open spec fn taskfile(&self, id: Seq<char>) -> Taskfile {
        self.taskfiles()[self.position_of(id)]
    }

    /// Every import of every taskfile is bound to the id of a taskfile of
    /// the workspace.
    pub open spec fn closed(&self) -> bool {
        forall|i: int, k: int|
            0 <= i < self.taskfiles().len() && 0 <= k < self.taskfiles()[i].imports.values().len() ==> {
                let import = #[trigger] self.taskfiles()[i].imports.values()[k];
                import is Resolved && self.has(import->Resolved_0@)
            }
    }

    /// The taskfile at position `i` is the one found under its id.
    pub proof fn lemma_at_position(&self, i: int)
        requires
            self.wf(),
            0 <= i < self.taskfiles().len(),
        ensures
            self.has(self.taskfiles()[i].id@),
            self.position_of(self.taskfiles()[i].id@) == i,
            self.taskfile(self.taskfiles()[i].id@) == self.taskfiles()[i],
    {
        let id = self.ids()[i];
        let j = self.position_of(id);
        assert(0 <= j < self.ids().len() && self.ids()[j] == id);
    }

    /// A taskfile of the workspace is well formed and holds its own id.
    pub proof fn lemma_taskfile(&self, id: Seq<char>)
        requires
            self.wf(),
            self.has(id),
        ensures
            self.taskfile(id).wf(),
            self.taskfile(id).id@ == id,
    {
        let j = self.position_of(id);
        assert(0 <= j < self.ids().len() && self.ids()[j] == id);
    }

    /// A workspace without taskfiles.
    pub fn new() -> (r: Self)
        ensures
            r.wf(),
            r.closed(),
            r.taskfiles() =~= Seq::empty(),
    {
        Workspace { tasks: Vec::new() }
    }

    /// The number of taskfiles.
    pub fn len(&self) -> (r: usize)
        ensures
            r == self.taskfiles().len(),
    {
        self.tasks.len()
    }

    /// The position of the taskfile of this id, if one was loaded.
    pub fn find(&self, id: &str) -> (r: Option<usize>)
        ensures
            match r {
                Some(i) => i < self.taskfiles().len() && self.taskfiles()[i as int].id@ == id@
                    && self.has(id@),
                None => !self.has(id@),
            },
            self.wf() && r is Some ==> r->0 == self.position_of(id@),
    {
        let mut i: usize = 0;
        while i < self.tasks.len()
            invariant
                i <= self.tasks.len(),
                forall|j: int| 0 <= j < i ==> self.ids()[j] != id@,
            decreases self.tasks.len() - i,
        {
            if crate::text::text_eq(self.tasks[i].id.as_str(), id) {
                proof {
                    assert(self.ids()[i as int] == id@);
                    if self.wf() {
                        self.lemma_at_position(i as int);
                    }
                }
                return Some(i);
            }
            i += 1;
        }
        None
    }

    /// The taskfile of this id, if one was loaded.
    pub fn get(&self, id: &TaskfileId) -> (r: Option<&Taskfile>)
        requires
            self.wf(),
        ensures
            match r {
                Some(tf) => self.has(id@) && *tf == self.taskfile(id@) && tf.wf() && tf.id@ == id@,
                None => !self.has(id@),
            },
    {
        match self.find(id.as_str()) {
            Some(i) => Some(&self.tasks[i]),
            None => None,
        }
    }

    /// The id of the taskfile at this canonical path, if it was loaded.
    pub fn get_id_from_path(&self, path: &str) -> (r: Option<TaskfileId>)
        requires
            self.wf(),
        ensures
            match r {
                Some(id) => self.has(path@) && id@ == path@,
                None => !self.has(path@),
            },
    {
        match self.find(path) {
            Some(i) => Some(self.tasks[i].id.duplicate()),
            None => None,
        }
    }

    /// Adds a taskfile whose id the workspace does not hold.
    pub fn insert(&mut self, taskfile: Taskfile)
        requires
            old(self).wf(),
            taskfile.wf(),
            !old(self).has(taskfile.id@),
        ensures
            final(self).wf(),
            final(self).taskfiles() == old(self).taskfiles().push(taskfile),
            final(self).ids() == old(self).ids().push(taskfile.id@),
            forall|id: Seq<char>| final(self).has(id) <==> (old(self).has(id) || id == taskfile.id@),
    {
        let ghost ids0 = self.ids();
        self.tasks.push(taskfile);
        proof {
            assert(self.ids() =~= ids0.push(taskfile.id@));
            assert forall|id: Seq<char>| self.has(id) <==> (old(self).has(id) || id == taskfile.id@) by {
                if self.has(id) {
                    let j = choose|j: int| 0 <= j < self.ids().len() && self.ids()[j] == id;
                    if j < ids0.len() {
                        assert(ids0[j] == id);
                    }
                }
                if old(self).has(id) {
                    let j = choose|j: int| 0 <= j < ids0.len() && ids0[j] == id;
                    assert(self.ids()[j] == id);
                }
                assert(self.ids()[ids0.len() as int] == taskfile.id@);
            }
            assert forall|i: int| 0 <= i < self.taskfiles().len()
                implies (#[trigger] self.taskfiles()[i]).wf() by {
                if i < ids0.len() {
                    assert(self.taskfiles()[i] == old(self).taskfiles()[i]);
                }
            }
        }
    }

    /// Replaces the imports of the taskfile of this id.
    pub fn set_imports(&mut self, id: &TaskfileId, imports: StrMap<TaskfileImportRef>)
        requires
            old(self).wf(),
            old(self).has(id@),
            imports.wf(),
        ensures
            final(self).wf(),
            final(self).ids() == old(self).ids(),
            final(self).taskfiles().len() == old(self).taskfiles().len(),
            forall|i: int|
                0 <= i < old(self).taskfiles().len() && i != old(self).position_of(id@) ==> (
                #[trigger] final(self).taskfiles()[i]) == old(self).taskfiles()[i],
            final(self).taskfile(id@).imports == imports,
            final(self).taskfile(id@).id == old(self).taskfile(id@).id,
            final(self).taskfile(id@).dir == old(self).taskfile(id@).dir,
            final(self).taskfile(id@).env == old(self).taskfile(id@).env,
            final(self).taskfile(id@).tasks == old(self).taskfile(id@).tasks,
    {
        let ghost ids0 = self.ids();
        let ghost before = self.taskfiles();
        match self.find(id.as_str()) {
            Some(i) => {
                let mut taskfile = self.tasks.remove(i);
                taskfile.imports = imports;
                self.tasks.insert(i, taskfile);
                proof {
                    assert(self.ids() =~= ids0);
                    assert forall|j: int| 0 <= j < self.taskfiles().len() implies (
                    #[trigger] self.taskfiles()[j]).wf() by {
                        if j != i {
                            assert(self.taskfiles()[j] == before[j]);
                        } else {
                            assert(before[i as int].wf());
                        }
                    }
                    self.lemma_at_position(i as int);
                }
            },
            None => {},
        }
    }

    /// Looks up the task that a reference standing in `current` refers to,
    /// with the taskfile that defines it. An alias that `current` binds has
    /// to be bound to an id.
    pub fn resolve_task<'a>(&'a self, current: &'a Taskfile, reference: &TaskRef) -> (r: Option<
        (&'a Taskfile, &'a Task),
    >)
        requires
            self.wf(),
            current.wf(),
            reference@ matches TaskRefView::Imported { from, name } ==> (current.imports.has(from)
                ==> current.imports.at(from) is Resolved),
        ensures
            match r {
                Some((tf, task)) => resolves_to(*self, *current, reference@) == Some((*tf, *task))
                    && tf.wf() && task.wf(),
                None => resolves_to(*self, *current, reference@) is None,
            },
    {
        match reference {
            TaskRef::Name(name) => match current.tasks.get(name.as_str()) {
                Some(task) => {
                    proof {
                        current.lemma_task_wf(name@);
                    }
                    Some((current, task))
                },
                None => None,
            },
            TaskRef::Imported { from, name } => {
                let id = match current.imports.get(from.as_str()) {
                    Some(TaskfileImportRef::Resolved(id)) => id,
                    Some(TaskfileImportRef::Unresolved(_)) => {
                        return None;
                    },
                    None => {
                        return None;
                    },
                };
                let tasks = match self.get(id) {
                    Some(tf) => tf,
                    None => {
                        return None;
                    },
                };
                match tasks.tasks.get(name.as_str()) {
                    Some(task) => {
                        proof {
                            tasks.lemma_task_wf(name@);
                        }
                        Some((tasks, task))
                    },
                    None => None,
                }
            },
        }
    }

    /// Resolves an invocation that stands in `current`: the resolved
    /// invocation names the taskfile that defines the task, whoever asked.
    pub fn resolve_invocation<'a>(
        &'a self,
        current: &'a Taskfile,
        invocation: &TaskInvocation<TaskRef>,
    ) -> (r: Option<(ResolvedTaskInvocation, &'a Task)>)
        requires
            self.wf(),
            current.wf(),
            invocation.args.wf(),
            invocation.reference@ matches TaskRefView::Imported { from, name } ==> (
            current.imports.has(from) ==> current.imports.at(from) is Resolved),
        ensures
            match r {
                Some((resolved, task)) => {
                    &&& resolves_to(*self, *current, invocation.reference@) is Some
                    &&& *task == (resolves_to(*self, *current, invocation.reference@)->0).1
                    &&& task.wf()
                    &&& resolved.args.wf()
                    &&& resolved.args.keys() == invocation.args.keys()
                    &&& resolved.args.values().len() == invocation.args.values().len()
                    &&& forall|i: int|
                        0 <= i < invocation.args.values().len() ==> (#[trigger] resolved.args.values()[i])@
                            == invocation.args.values()[i]@
                    &&& resolved_view(resolved) == (
                        (resolves_to(*self, *current, invocation.reference@)->0).0.id@,
                        ref_name(invocation.reference@),
                        args_view(invocation.args),
                    )
                },
                None => resolves_to(*self, *current, invocation.reference@) is None,
            },
    {
        match self.resolve_task(current, &invocation.reference) {
            Some((tasks, task)) => Some((invocation.as_resolved(&tasks.id), task)),
            None => None,
        }
    }

    /// Looks up the task of a resolved invocation, with its taskfile.
    pub fn resolve_invocation_task<'a>(&'a self, invocation: &ResolvedTaskInvocation) -> (r: Option<
        (&'a Taskfile, &'a Task),
    >)
        requires
            self.wf(),
        ensures
            match r {
                Some((tf, task)) => {
                    &&& self.has(invocation.reference.taskfile@)
                    &&& *tf == self.taskfile(invocation.reference.taskfile@)
                    &&& tf.tasks.has(invocation.reference.name@)
                    &&& *task == tf.tasks.at(invocation.reference.name@)
                    &&& tf.wf()
                    &&& task.wf()
                },
                None => !self.has(invocation.reference.taskfile@) || !self.taskfile(
                    invocation.reference.taskfile@,
                ).tasks.has(invocation.reference.name@),
            },
    {
        let tasks = match self.get(&invocation.reference.taskfile) {
            Some(tf) => tf,
            None => {
                return None;
            },
        };
        match tasks.tasks.get(invocation.reference.name.as_str()) {
            Some(task) => {
                proof {
                    tasks.lemma_task_wf(invocation.reference.name@);
                }
                Some((tasks, task))
            },
            None => None,
        }
    }
}

} // verus!
