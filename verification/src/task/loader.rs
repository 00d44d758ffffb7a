//! Loading taskfiles into a workspace.
//!
//! Finding a taskfile, making its path canonical and reading it are left to
//! whoever drives a [`LoadSession`]; the session decides what is to be found
//! or read next, and what becomes of it.

use crate::paths::{parent, path_parent};
use crate::strmap::StrMap;
use crate::task::task_ref::TaskfileId;
use crate::task::taskfile::{Taskfile, TaskfileImportRef};
use crate::task::workspace::Workspace;
use vstd::prelude::*;

pub mod yaml;
pub mod yaml_executable;

verus! {

/// A front end: a way in which taskfiles are kept. Its implementations look
/// at the file system.
pub trait TaskfileLoader {
    /// The taskfile that lives at `path` or, for a directory, in it: the
    /// path of its source.
    fn find_taskfile(&self, path: &str) -> Option<String>;

    /// The taskfile of a source that this front end has found.
    fn load_taskfile(&self, source: &str) -> Result<Taskfile, TaskfileLoadError>;
}

/// The source of a taskfile, as a front end has found it.
pub trait AbstractTaskfileSource {
    /// The path of the source.
    fn path(&self) -> String;
}

/// Why a front end could not hand over a taskfile.
#[derive(Debug)]
pub enum TaskfileLoadError {
    /// The source is not one of this front end.
    InvalidType,
    /// The source could not be read as a taskfile.
    Other(String),
}

/// Why a taskfile could not be loaded into a workspace.
#[derive(Debug)]
pub enum WorkspaceLoadError {
    /// No taskfile lives at the path or, for a directory, above it.
    TaskfileNotFound,
    /// The path of the taskfile that was found has no canonical form.
    Canonicalize(String),
    TaskfileLoadError(TaskfileLoadError),
}

/// What the search for a taskfile at a path came to.
#[derive(Debug)]
pub enum Found {
    /// No front end knows a taskfile at the path.
    NotFound,
    /// A taskfile was found, but its path has no canonical form.
    NotCanonical,
    /// A taskfile was found; this is its canonical path.
    At(String),
}

/// What is to be done next to load a taskfile.
#[derive(Debug)]
pub enum LoadStep {
    /// Search for the taskfile at this path, and report what was found.
    Find(String),
    /// Read the taskfile with this id, and report it.
    Load(TaskfileId),
    /// The taskfile that was asked for, and all that it imports, are in the
    /// workspace; this is its id.
    Done(TaskfileId),
    /// Loading has failed.
    Failed(WorkspaceLoadError),
}

/// `places` are the places at which a taskfile is searched for from
/// `path`, in order: the path itself and, where it is a directory, each of
/// its parents up to the root.
pub open spec fn is_search_order(path: Seq<char>, is_dir: bool, places: Seq<Seq<char>>) -> bool {
    &&& places.len() >= 1
    &&& places[0] == path
    &&& forall|i: int| 0 <= i < places.len() - 1 ==> path_parent(#[trigger] places[i]) == Some(places[i + 1])
    &&& if is_dir {
        path_parent(places.last()) is None
    } else {
        places.len() == 1
    }
}

/// The places at which a taskfile is searched for from `path`, in order.
/// A directory without a taskfile leaves the search to its parent; a file
/// is looked at alone.
pub fn search_places(path: &str, is_dir: bool) -> (r: Vec<String>)
    ensures
        is_search_order(path@, is_dir, crate::text::views(r@)),
{
    let mut places: Vec<String> = Vec::new();
    places.push(path.to_owned());
    if !is_dir {
        return places;
    }
    let mut up = parent(path);
    let ghost mut rest = path@.len();
    loop
        invariant_except_break
            is_dir,
            places@.len() >= 1,
            places@[0]@ == path@,
            forall|i: int|
                0 <= i < places@.len() - 1 ==> path_parent(#[trigger] places@[i]@) == Some(places@[i + 1]@),
            match up {
                Some(p) => path_parent(places@.last()@) == Some(p@) && p@.len() < rest,
                None => path_parent(places@.last()@) is None,
            },
        ensures
            is_search_order(path@, is_dir, crate::text::views(places@)),
        decreases rest,
    {
        match up {
            None => {
                proof {
                    let texts = crate::text::views(places@);
                    assert(texts.last() == places@.last()@);
                    assert forall|i: int| 0 <= i < texts.len() - 1 implies path_parent(
                        #[trigger] texts[i],
                    ) == Some(texts[i + 1]) by {
                        assert(path_parent(places@[i]@) == Some(places@[i + 1]@));
                    }
                }
                break ;
            },
            Some(p) => {
                let next = parent(p.as_str());
                proof {
                    rest = p@.len();
                }
                let ghost before = places@;
                places.push(p);
                assert forall|i: int| 0 <= i < places@.len() - 1 implies path_parent(
                    #[trigger] places@[i]@,
                ) == Some(places@[i + 1]@) by {
                    if i < before.len() - 1 {
                        assert(places@[i] == before[i]);
                        assert(places@[i + 1] == before[i + 1]);
                    }
                }
                up = next;
            },
        }
    }
    places
}

/// The first front end that has found a taskfile, by its position, with
/// the source that it found: the front ends are asked in order, and the
/// first that finds something wins.
pub fn first_found(found: &Vec<Option<String>>) -> (r: Option<(usize, String)>)
    ensures
        match r {
            Some((i, source)) => i < found@.len() && found@[i as int] is Some && found@[i as int]->0@
                == source@ && forall|j: int| 0 <= j < i ==> (#[trigger] found@[j]) is None,
            None => forall|j: int| 0 <= j < found@.len() ==> (#[trigger] found@[j]) is None,
        },
{
    let mut i: usize = 0;
    while i < found.len()
        invariant
            i <= found@.len(),
            forall|j: int| 0 <= j < i ==> (#[trigger] found@[j]) is None,
        decreases found@.len() - i,
    {
        match &found[i] {
            Some(source) => {
                return Some((i, source.clone()));
            },
            None => {},
        }
        i += 1;
    }
    None
}

/// How many front ends have found a taskfile.
pub open spec fn finders(found: Seq<Option<String>>) -> nat
    decreases found.len(),
{
    if found.len() == 0 {
        0
    } else if found.last() is Some {
        finders(found.drop_last()) + 1
    } else {
        finders(found.drop_last())
    }
}

/// Whether more than one front end has found a taskfile. Only the first
/// of them is used; the others are worth a warning.
pub fn is_contested(found: &Vec<Option<String>>) -> (r: bool)
    ensures
        r == (finders(found@) > 1),
{
    let mut count: usize = 0;
    let mut i: usize = 0;
    assert(found@.take(0) =~= Seq::empty());
    while i < found.len()
        invariant
            i <= found@.len(),
            count == finders(found@.take(i as int)),
            count <= i,
        decreases found@.len() - i,
    {
        proof {
            assert(found@.take(i + 1).drop_last() =~= found@.take(i as int));
            assert(found@.take(i + 1).last() == found@[i as int]);
        }
        if found[i].is_some() {
            count += 1;
        }
        i += 1;
    }
    assert(found@.take(found@.len() as int) =~= found@);
    count > 1
}

/// What an import is bound to: a path that is still to be looked up, or
/// the id of a taskfile.
pub enum ImportView {
    Unresolved(Seq<char>),
    Resolved(Seq<char>),
}

/// The value of an import.
pub open spec fn import_view(import: TaskfileImportRef) -> ImportView {
    match import {
        TaskfileImportRef::Unresolved(path) => ImportView::Unresolved(path@),
        TaskfileImportRef::Resolved(id) => ImportView::Resolved(id@),
    }
}

/// The values of the imports of a taskfile, in their order.
pub open spec fn imports_view(imports: StrMap<TaskfileImportRef>) -> Seq<ImportView> {
    Seq::new(imports.values().len(), |i: int| import_view(imports.values()[i]))
}

/// A taskfile that waits for one of its imports to be looked up.
pub struct Pending {
    /// The id of the taskfile.
    pub id: Seq<char>,
    /// Its imports as they stand.
    pub imports: Seq<ImportView>,
    /// The position of the import that it waits for.
    pub next: int,
}

/// The value of a step.
pub enum StepView {
    Find(Seq<char>),
    Load(Seq<char>),
    Done(Seq<char>),
    Failed,
}

/// The position of the first import from `from` on that is still a path.
pub open spec fn first_unresolved(imports: Seq<ImportView>, from: int) -> Option<int>
    decreases imports.len() - from,
{
    if from < 0 || from >= imports.len() {
        None
    } else if imports[from] is Unresolved {
        Some(from)
    } else {
        first_unresolved(imports, from + 1)
    }
}

/// A waiting taskfile after the import that it waited for has been bound
/// to the taskfile of the id `id`.
pub open spec fn bound(p: Pending, id: Seq<char>) -> Pending {
    Pending { id: p.id, imports: p.imports.update(p.next, ImportView::Resolved(id)), next: p.next + 1 }
}

/// What going through the imports of a taskfile comes to.
pub struct Advance {
    /// The taskfiles that wait afterwards, the one asked for first at the bottom.
    pub pending: Seq<Pending>,
    /// What is asked for next.
    pub step: StepView,
    /// The taskfiles whose imports are all bound, each with its imports,
    /// in the order in which they were settled.
    pub settled: Seq<(Seq<char>, Seq<ImportView>)>,
}

/// Goes through the imports of `frame` from its position on, with `stack`
/// waiting beneath it. At the first import that is still a path the
/// taskfile is left waiting on top of the others, and that path is searched
/// next. Where none is left the taskfile is settled; the taskfile that
/// waited for it has its import bound to it and is gone through in turn.
/// Where none waited, the load is done.
pub open spec fn advanced(stack: Seq<Pending>, frame: Pending) -> Advance
    decreases stack.len(),
{
    match first_unresolved(frame.imports, frame.next) {
        Some(i) => Advance {
            pending: stack.push(Pending { id: frame.id, imports: frame.imports, next: i }),
            step: StepView::Find(frame.imports[i]->Unresolved_0),
            settled: Seq::empty(),
        },
        None => if stack.len() == 0 {
            Advance {
                pending: stack,
                step: StepView::Done(frame.id),
                settled: seq![(frame.id, frame.imports)],
            }
        } else {
            let rest = advanced(stack.drop_last(), bound(stack.last(), frame.id));
            Advance {
                pending: rest.pending,
                step: rest.step,
                settled: seq![(frame.id, frame.imports)] + rest.settled,
            }
        },
    }
}

/// The workspace holds each settled taskfile with the imports that it was
/// settled with.
pub open spec fn settled_in(ws: Workspace, settled: Seq<(Seq<char>, Seq<ImportView>)>) -> bool {
    forall|j: int|
        0 <= j < settled.len() ==> ws.has((#[trigger] settled[j]).0) && imports_view(
            ws.taskfile(settled[j].0).imports,
        ) == settled[j].1
}

/// The value of a step; of a failure, that it is one.
pub open spec fn step_view(step: LoadStep) -> StepView {
    match step {
        LoadStep::Find(path) => StepView::Find(path@),
        LoadStep::Load(id) => StepView::Load(id@),
        LoadStep::Done(id) => StepView::Done(id@),
        LoadStep::Failed(_) => StepView::Failed,
    }
}

/// `b` is `a` but for what its imports are bound to: the id, the
/// directory, the environment, the tasks and the aliases of the imports are
/// the same.
pub open spec fn same_but_imports(a: Taskfile, b: Taskfile) -> bool {
    &&& b.id == a.id
    &&& b.dir == a.dir
    &&& b.env == a.env
    &&& b.tasks == a.tasks
    &&& b.imports.keys() == a.imports.keys()
}

/// Every taskfile of `before` is in `after`, the same but for what its
/// imports are bound to.
pub open spec fn taskfiles_kept(before: Workspace, after: Workspace) -> bool {
    forall|x: Seq<char>| #[trigger]
        before.has(x) ==> after.has(x) && same_but_imports(before.taskfile(x), after.taskfile(x))
}

/// A taskfile whose imports are being looked up.
struct Frame {
    id: TaskfileId,
    /// The imports of the taskfile; those before `next` are bound to ids.
    imports: StrMap<TaskfileImportRef>,
    next: usize,
}

/// The loading of one taskfile and of everything that it imports.
pub struct LoadSession {
    workspace: Workspace,
    stack: Vec<Frame>,
    awaited: Option<TaskfileId>,
}

/// The imports of a list, copied.
fn copy_imports(imports: &StrMap<TaskfileImportRef>) -> (r: StrMap<TaskfileImportRef>)
    requires
        imports.wf(),
    ensures
        r.wf(),
        r.keys() == imports.keys(),
        r.values().len() == imports.values().len(),
        forall|i: int|
            0 <= i < imports.values().len() ==> same_import(imports.values()[i], #[trigger] r.values()[i]),
{
    let mut out: StrMap<TaskfileImportRef> = StrMap::new();
    let mut i: usize = 0;
    while i < imports.len()
        invariant
            i <= imports.keys().len(),
            imports.wf(),
            out.wf(),
            out.keys() == imports.keys().take(i as int),
            out.values().len() == i,
            forall|j: int| 0 <= j < i ==> same_import(imports.values()[j], #[trigger] out.values()[j]),
        decreases imports.keys().len() - i,
    {
        let key = imports.key_at(i).clone();
        let value = imports.value_at(i).duplicate();
        proof {
            if out.has(key@) {
                let j = choose|j: int| 0 <= j < out.keys().len() && out.keys()[j] == key@;
                assert(imports.keys()[j] == imports.keys()[i as int]);
            }
        }
        let old = out.insert(key, value);
        assert(old is None);
        assert(imports.keys().take(i + 1) =~= imports.keys().take(i as int).push(imports.keys()[i as int]));
        i += 1;
    }
    assert(imports.keys().take(imports.keys().len() as int) =~= imports.keys());
    out
}

/// Two imports are bound to the same thing.
pub open spec fn same_import(a: TaskfileImportRef, b: TaskfileImportRef) -> bool {
    match a {
        TaskfileImportRef::Unresolved(p) => b is Unresolved && b->Unresolved_0@ == p@,
        TaskfileImportRef::Resolved(id) => b is Resolved && b->Resolved_0@ == id@,
    }
}

/// The import at position `i` is the first from position `from` on that is
/// still a path.
pub open spec fn next_unresolved(imports: StrMap<TaskfileImportRef>, from: int, i: int) -> bool {
    &&& from <= i < imports.values().len()
    &&& imports.values()[i] is Unresolved
    &&& forall|j: int| from <= j < i ==> !((#[trigger] imports.values()[j]) is Unresolved)
}

/// Every import that is bound to an id is bound to a taskfile of the workspace.
pub open spec fn bound_imports_known(ws: Workspace, imports: StrMap<TaskfileImportRef>) -> bool {
    forall|k: int|
        0 <= k < imports.values().len() ==> ((#[trigger] imports.values()[k]) is Resolved ==> ws.has(
            imports.values()[k]->Resolved_0@,
        ))
}

/// Every import is bound to a taskfile of the workspace.
pub open spec fn settled(ws: Workspace, imports: StrMap<TaskfileImportRef>) -> bool {
    forall|k: int|
        0 <= k < imports.values().len() ==> (#[trigger] imports.values()[k]) is Resolved && ws.has(
            imports.values()[k]->Resolved_0@,
        )
}

impl Frame {
    spec fn ok(&self, ws: Workspace) -> bool {
        &&& ws.has(self.id@)
        &&& self.imports.wf()
        &&& self.next <= self.imports.values().len()
        &&& bound_imports_known(ws, self.imports)
        &&& forall|k: int| 0 <= k < self.next ==> (#[trigger] self.imports.values()[k]) is Resolved
        &&& self.imports.keys() == ws.taskfile(self.id@).imports.keys()
    }

    /// The frame waits for the import at `next` to be looked up.
    spec fn waits(&self) -> bool {
        &&& self.next < self.imports.values().len()
        &&& self.imports.values()[self.next as int] is Unresolved
    }

    /// Binds the import that the frame waits for to `id`.
    fn bind(&mut self, id: &TaskfileId, Ghost(ws): Ghost<Workspace>)
        requires
            old(self).ok(ws),
            old(self).waits(),
            ws.has(id@),
        ensures
            final(self).ok(ws),
            final(self).id == old(self).id,
            final(self).next == old(self).next + 1,
            final(self).imports.keys() == old(self).imports.keys(),
            final(self).view() == bound(old(self).view(), id@),
    {
        let key = self.imports.key_at(self.next).clone();
        proof {
            self.imports.lemma_at_position(self.next as int);
            self.imports.lemma_len();
        }
        let ghost before = self.imports;
        let _ = self.imports.insert(key, TaskfileImportRef::Resolved(id.duplicate()));
        let n = self.imports.len();
        assert(self.next < n);
        proof {
            self.imports.lemma_len();
            assert(self.imports.values() == before.values().update(
                self.next as int,
                self.imports.values()[self.next as int],
            ));
            assert(imports_view(self.imports) =~= imports_view(before).update(
                self.next as int,
                ImportView::Resolved(id@),
            ));
        }
        self.next = self.next + 1;
    }

    /// The frame as a waiting taskfile.
    spec fn view(&self) -> Pending {
        Pending { id: self.id@, imports: imports_view(self.imports), next: self.next as int }
    }
}

/// The frames as waiting taskfiles.
spec fn frames_view(stack: Seq<Frame>) -> Seq<Pending> {
    Seq::new(stack.len(), |j: int| stack[j].view())
}

/// No two frames are of the same taskfile.
spec fn distinct(stack: Seq<Frame>) -> bool {
    forall|i: int, j: int| 0 <= i < j < stack.len() ==> (#[trigger] stack[i]).id@ != (#[trigger] stack[j]).id@
}

/// A frame of the stack is that of the taskfile of this id.
spec fn waits_in(stack: Seq<Frame>, id: Seq<char>) -> bool {
    exists|j: int| 0 <= j < stack.len() && (#[trigger] stack[j]).id@ == id
}

/// A taskfile that waited before the last frame left the stack still waits,
/// or is that of the last frame.
proof fn lemma_popped(rest: Seq<Frame>, last: Frame, id: Seq<char>)
    requires
        waits_in(rest.push(last), id),
    ensures
        waits_in(rest, id) || last.id@ == id,
{
    let full = rest.push(last);
    let j = choose|j: int| 0 <= j < full.len() && (#[trigger] full[j]).id@ == id;
    if j < rest.len() {
        assert(rest[j].id@ == id);
    }
}

/// A taskfile that waited before a frame came onto the stack still waits,
/// and so does that of the new frame.
proof fn lemma_pushed(rest: Seq<Frame>, last: Frame, id: Seq<char>)
    requires
        waits_in(rest, id) || last.id@ == id,
    ensures
        waits_in(rest.push(last), id),
{
    let full = rest.push(last);
    if waits_in(rest, id) {
        let j = choose|j: int| 0 <= j < rest.len() && (#[trigger] rest[j]).id@ == id;
        assert(full[j].id@ == id);
    } else {
        assert(full[rest.len() as int].id@ == id);
    }
}

/// `root` where there is one, else `id`.
pub open spec fn root_or(root: Option<Seq<char>>, id: Seq<char>) -> Seq<char> {
    match root {
        Some(r) => r,
        None => id,
    }
}

impl LoadSession {
    /// The id of the taskfile that was asked for, while it waits for its
    /// imports; `None` where no taskfile waits.
    pub closed spec fn root(&self) -> Option<Seq<char>> {
        if self.stack@.len() > 0 {
            Some(self.stack@[0].id@)
        } else {
            None
        }
    }

    /// The taskfiles that wait for their imports, the one that was asked
    /// for first at the bottom.
    pub closed spec fn pending(&self) -> Seq<Pending> {
        frames_view(self.stack@)
    }

    /// The workspace as it stands.
    pub closed spec fn workspace(&self) -> Workspace {
        self.workspace
    }

    /// How many taskfiles are waiting for their imports.
    pub closed spec fn depth(&self) -> nat {
        self.stack@.len()
    }

    /// The id of the taskfile that is to be read, if one is.
    pub closed spec fn awaited(&self) -> Option<Seq<char>> {
        match self.awaited {
            Some(id) => Some(id@),
            None => None,
        }
    }

    spec fn on_stack(&self, id: Seq<char>) -> bool {
        waits_in(self.stack@, id)
    }

    /// What holds between the steps of a session: the workspace holds each
    /// taskfile once, and every taskfile that is not waiting for its imports
    /// has all of them bound to taskfiles of the workspace.
    pub closed spec fn inv(&self) -> bool {
        self.inv_but(None)
    }

    /// As `inv`, but for the taskfile of the id `pending`, whose imports are
    /// being gone through.
    spec fn inv_but(&self, pending: Option<Seq<char>>) -> bool {
        &&& self.workspace.wf()
        &&& forall|j: int|
            0 <= j < self.stack@.len() ==> (#[trigger] self.stack@[j]).ok(self.workspace)
                && self.stack@[j].waits()
        &&& forall|i: int|
            0 <= i < self.workspace.taskfiles().len() ==> self.on_stack(
                (#[trigger] self.workspace.taskfiles()[i]).id@,
            ) || settled(self.workspace, self.workspace.taskfiles()[i].imports) || pending == Some(
                self.workspace.taskfiles()[i].id@,
            )
        &&& self.awaited matches Some(id) ==> !self.workspace.has(id@)
        &&& distinct(self.stack@)
        &&& pending matches Some(id) ==> !waits_in(self.stack@, id)
    }

    /// Where no taskfile waits for its imports, the workspace is closed.
    pub proof fn lemma_idle_is_closed(&self)
        requires
            self.inv(),
            self.depth() == 0,
        ensures
            self.workspace().closed(),
            self.workspace().wf(),
    {
        assert forall|i: int, k: int|
            0 <= i < self.workspace.taskfiles().len() && 0 <= k
                < self.workspace.taskfiles()[i].imports.values().len() implies {
            let import = #[trigger] self.workspace.taskfiles()[i].imports.values()[k];
            import is Resolved && self.workspace.has(import->Resolved_0@)
        } by {
            let tf = self.workspace.taskfiles()[i];
            assert(!self.on_stack(tf.id@));
            assert(settled(self.workspace, tf.imports));
        }
    }

    /// Begins to load the taskfile at `path` into `workspace`.
    pub fn begin(workspace: Workspace, path: &str) -> (r: (LoadSession, LoadStep))
        requires
            workspace.wf(),
            workspace.closed(),
        ensures
            r.0.inv(),
            r.0.depth() == 0,
            r.0.pending() =~= Seq::empty(),
            r.0.awaited() is None,
            r.0.root() is None,
            r.0.workspace() == workspace,
            r.1 matches LoadStep::Find(p) && p@ == path@,
    {
        let session = LoadSession { workspace, stack: Vec::new(), awaited: None };
        proof {
            assert(session.stack@.len() == 0);
            assert forall|i: int| 0 <= i < workspace.taskfiles().len() implies settled(
                workspace,
                (#[trigger] workspace.taskfiles()[i]).imports,
            ) by {
                assert forall|k: int| 0 <= k < workspace.taskfiles()[i].imports.values().len() implies (
                #[trigger] workspace.taskfiles()[i].imports.values()[k]) is Resolved && workspace.has(
                    workspace.taskfiles()[i].imports.values()[k]->Resolved_0@,
                ) by {}
            }
        }
        (session, LoadStep::Find(path.to_owned()))
    }

    /// Goes through the imports of `frame` from where it stands. At the
    /// first import that has to be looked up the frame is left waiting.
    /// Where none is left, the taskfile is settled and handed to the frame
    /// that waits for it, which is gone through in turn.
    fn advance(&mut self, start: Frame) -> (r: LoadStep)
        requires
            old(self).inv_but(Some(start.id@)),
            old(self).awaited is None,
            start.ok(old(self).workspace),
        ensures
            final(self).inv(),
            final(self).awaited() is None,
            final(self).workspace().ids() == old(self).workspace().ids(),
            r is Done || r is Find,
            r is Done ==> final(self).depth() == 0,
            r is Find ==> final(self).depth() > 0,
            r matches LoadStep::Done(id) ==> id@ == root_or(old(self).root(), start.id@),
            r is Find ==> final(self).root() == Some(root_or(old(self).root(), start.id@)),
            final(self).pending() == advanced(old(self).pending(), start.view()).pending,
            step_view(r) == advanced(old(self).pending(), start.view()).step,
            settled_in(final(self).workspace(), advanced(old(self).pending(), start.view()).settled),
            taskfiles_kept(old(self).workspace(), final(self).workspace()),
            forall|i: int|
                next_unresolved(start.imports, start.next as int, i) ==> (r matches LoadStep::Find(p)
                    && p@ == start.imports.values()[i]->Unresolved_0@
                        && final(self).depth() == old(self).depth() + 1),
            (forall|i: int| !next_unresolved(start.imports, start.next as int, i)) && old(self).depth()
                == 0 ==> (r matches LoadStep::Done(id) && id@ == start.id@),
    {
        let ghost frame0 = start;
        let ghost mut first = true;
        let ghost asked = root_or(old(self).root(), start.id@);
        let ghost target = advanced(old(self).pending(), start.view());
        let ghost mut done: Seq<(Seq<char>, Seq<ImportView>)> = Seq::empty();
        let mut frame = start;
        proof {
            assert(done + target.settled =~= target.settled);
        }
        loop
            invariant
                taskfiles_kept(old(self).workspace, self.workspace),
                target == advanced(old(self).pending(), start.view()),
                advanced(frames_view(self.stack@), frame.view()).pending == target.pending,
                advanced(frames_view(self.stack@), frame.view()).step == target.step,
                done + advanced(frames_view(self.stack@), frame.view()).settled == target.settled,
                settled_in(self.workspace, done),
                forall|j: int|
                    0 <= j < done.len() ==> (#[trigger] done[j]).0 != frame.id@ && !waits_in(
                        self.stack@,
                        done[j].0,
                    ),
                asked == root_or(old(self).root(), start.id@),
                root_or(self.root(), frame.id@) == asked,
                self.inv_but(Some(frame.id@)),
                self.awaited is None,
                frame.ok(self.workspace),
                self.workspace.ids() == old(self).workspace.ids(),
                frame0 == start,
                first ==> frame == frame0 && self.stack@ == old(self).stack@,
                !first ==> old(self).stack@.len() > 0 && forall|i: int|
                    !next_unresolved(frame0.imports, frame0.next as int, i),
            decreases self.stack@.len(),
        {
            let ghost stack0 = self.stack@;
            while frame.next < frame.imports.len()
                invariant
                    self.inv_but(Some(frame.id@)),
                    self.awaited is None,
                    frame.ok(self.workspace),
                    self.workspace.ids() == old(self).workspace.ids(),
                    self.stack@ == stack0,
                    frame0 == start,
                    taskfiles_kept(old(self).workspace, self.workspace),
                    target == advanced(old(self).pending(), start.view()),
                    advanced(frames_view(self.stack@), frame.view()).pending == target.pending,
                    advanced(frames_view(self.stack@), frame.view()).step == target.step,
                    done + advanced(frames_view(self.stack@), frame.view()).settled == target.settled,
                    settled_in(self.workspace, done),
                    forall|j: int|
                        0 <= j < done.len() ==> (#[trigger] done[j]).0 != frame.id@ && !waits_in(
                            self.stack@,
                            done[j].0,
                        ),
                    frame.next <= frame.imports.values().len(),
                    asked == root_or(old(self).root(), start.id@),
                    root_or(self.root(), frame.id@) == asked,
                    first ==> frame.imports == frame0.imports && frame.id == frame0.id && frame0.next
                        <= frame.next && self.stack@ == old(self).stack@ && forall|j: int|
                        frame0.next <= j < frame.next ==> !((#[trigger] frame0.imports.values()[j])
                            is Unresolved),
                    !first ==> old(self).stack@.len() > 0 && forall|i: int|
                        !next_unresolved(frame0.imports, frame0.next as int, i),
                decreases frame.imports.values().len() - frame.next,
            {
                match frame.imports.value_at(frame.next) {
                    TaskfileImportRef::Unresolved(path) => {
                        let path = path.clone();
                        let ghost before = self.stack@;
                        let ghost at = frame.next as int;
                        proof {
                            frame.imports.lemma_len();
                            assert(imports_view(frame.imports)[at] is Unresolved);
                            assert(first_unresolved(frame.view().imports, frame.view().next) == Some(at));
                            assert(target.settled =~= done);
                        }
                        self.stack.push(frame);
                        proof {
                            assert(frames_view(self.stack@) =~= frames_view(before).push(frame.view()));
                            assert(self.stack@ == before.push(frame));
                            assert forall|i: int| 0 <= i < self.workspace.taskfiles().len() implies self.on_stack(
                                (#[trigger] self.workspace.taskfiles()[i]).id@,
                            ) || settled(self.workspace, self.workspace.taskfiles()[i].imports) by {
                                let id = self.workspace.taskfiles()[i].id@;
                                if waits_in(before, id) || frame.id@ == id {
                                    lemma_pushed(before, frame, id);
                                }
                            }
                            assert forall|j: int| 0 <= j < self.stack@.len() implies (
                            #[trigger] self.stack@[j]).ok(self.workspace) && self.stack@[j].waits() by {
                                if j < before.len() {
                                    assert(self.stack@[j] == before[j]);
                                }
                            }
                        }
                        proof {
                            if first {
                                assert(frame0.imports.values()[at] is Unresolved);
                                assert(path@ == frame0.imports.values()[at]->Unresolved_0@);
                                assert(next_unresolved(frame0.imports, frame0.next as int, at));
                                assert forall|i: int|
                                    next_unresolved(
                                        frame0.imports,
                                        frame0.next as int,
                                        i,
                                    ) implies i == at by {
                                    if i < at {
                                        assert(!(frame0.imports.values()[i] is Unresolved));
                                    }
                                    if at < i {
                                        assert(!(frame0.imports.values()[at] is Unresolved));
                                    }
                                }
                                assert(self.stack@.len() == old(self).stack@.len() + 1);
                            }
                        }
                        return LoadStep::Find(path);
                    },
                    TaskfileImportRef::Resolved(_) => {
                        proof {
                            frame.imports.lemma_len();
                            assert(!(imports_view(frame.imports)[frame.next as int] is Unresolved));
                        }
                        frame.next = frame.next + 1;
                    },
                }
            }
            proof {
                if first {
                    assert forall|i: int| !next_unresolved(frame0.imports, frame0.next as int, i) by {
                        if next_unresolved(frame0.imports, frame0.next as int, i) {
                            assert(!(frame0.imports.values()[i] is Unresolved));
                        }
                    }
                }
            }
            let ghost settling = frame.view();
            proof {
                frame.imports.lemma_len();
                assert(first_unresolved(settling.imports, settling.next) is None);
            }
            let Frame { id, imports, next: _ } = frame;
            let ghost ws0 = self.workspace;
            let ghost pos = ws0.position_of(id@);
            self.workspace.set_imports(&id, imports);
            let ghost done0 = done;
            proof {
                done = done.push((settling.id, settling.imports));
                let ws1 = self.workspace;
                assert forall|j: int| 0 <= j < done.len() implies ws1.has((#[trigger] done[j]).0)
                    && imports_view(ws1.taskfile(done[j].0).imports) == done[j].1 by {
                    if j < done0.len() {
                        let x = done0[j].0;
                        assert(x != id@);
                        let px = ws0.position_of(x);
                        assert(0 <= px < ws0.ids().len() && ws0.ids()[px] == x);
                        ws0.lemma_at_position(px);
                        ws1.lemma_at_position(px);
                        assert(ws1.taskfiles()[px] == ws0.taskfiles()[px]);
                    }
                }
                assert(forall|x: Seq<char>| ws1.has(x) <==> ws0.has(x));
                assert(0 <= pos < ws0.ids().len() && ws0.ids()[pos] == id@);
                ws1.lemma_at_position(pos);
                assert forall|i: int| 0 <= i < ws1.taskfiles().len() implies self.on_stack(
                    (#[trigger] ws1.taskfiles()[i]).id@,
                ) || settled(ws1, ws1.taskfiles()[i].imports) by {
                    if i == pos {
                        assert(ws1.taskfiles()[i].imports == imports);
                    } else {
                        assert(ws1.taskfiles()[i] == ws0.taskfiles()[i]);
                        assert(ws0.ids()[i] != ws0.ids()[pos]);
                    }
                }
                assert forall|j: int| 0 <= j < self.stack@.len() implies (#[trigger] self.stack@[j]).ok(
                    ws1,
                ) by {
                    assert(self.stack@[j].ok(ws0));
                }
            }
            let ghost stack1 = self.stack@;
            match self.stack.pop() {
                None => {
                    proof {
                        assert(frames_view(stack1).len() == 0);
                        assert(done0 + seq![(settling.id, settling.imports)] =~= done);
                    }
                    return LoadStep::Done(id);
                },
                Some(parent) => {
                    let mut parent = parent;
                    let ghost rest = self.stack@;
                    let ghost last = parent;
                    proof {
                        assert(frames_view(stack1).drop_last() =~= frames_view(rest));
                        assert(frames_view(stack1).last() == last.view());
                        let after = advanced(frames_view(rest), bound(last.view(), settling.id));
                        assert(advanced(frames_view(stack1), settling).settled == seq![
                            (settling.id, settling.imports),
                        ] + after.settled);
                        assert(done0 + (seq![(settling.id, settling.imports)] + after.settled) =~= done
                            + after.settled);
                        assert(stack1 =~= rest.push(last));
                        assert(last == stack1[stack1.len() - 1]);
                        assert(last.ok(self.workspace) && last.waits());
                    }
                    parent.bind(&id, Ghost(self.workspace));
                    proof {
                        assert forall|i: int| 0 <= i < self.workspace.taskfiles().len() implies self.on_stack(
                            (#[trigger] self.workspace.taskfiles()[i]).id@,
                        ) || settled(self.workspace, self.workspace.taskfiles()[i].imports) || Some(
                            parent.id@,
                        ) == Some(self.workspace.taskfiles()[i].id@) by {
                            let x = self.workspace.taskfiles()[i].id@;
                            if waits_in(stack1, x) {
                                lemma_popped(rest, last, x);
                            }
                        }
                        assert forall|j: int| 0 <= j < self.stack@.len() implies (
                        #[trigger] self.stack@[j]).ok(self.workspace) && self.stack@[j].waits() by {
                            assert(self.stack@[j] == stack1[j]);
                        }
                    }
                    frame = parent;
                    proof {
                        first = false;
                    }
                },
            }
        }
    }

    /// Reports what the search for the taskfile at `searched` came to.
    ///
    /// A taskfile that the workspace holds already is not read again: its
    /// id is handed to whoever waits for it, and the workspace keeps the
    /// taskfiles it has.
    pub fn found(&mut self, searched: &str, found: Found) -> (r: LoadStep)
        requires
            old(self).inv(),
            old(self).awaited() is None,
        ensures
            taskfiles_kept(old(self).workspace(), final(self).workspace()),
            final(self).inv(),
            final(self).workspace().ids() == old(self).workspace().ids(),
            match found {
                Found::NotFound => r matches LoadStep::Failed(WorkspaceLoadError::TaskfileNotFound)
                    && final(self).workspace() == old(self).workspace()
                        && final(self).pending() == old(self).pending(),
                Found::NotCanonical => r matches LoadStep::Failed(WorkspaceLoadError::Canonicalize(p))
                    && p@ == searched@ && final(self).workspace() == old(self).workspace()
                    && final(self).pending() == old(self).pending(),
                Found::At(path) => if old(self).workspace().has(path@) {
                    &&& final(self).awaited() is None
                    &&& r is Done || r is Find
                    &&& old(self).depth() == 0 ==> (r matches LoadStep::Done(id) && id@ == path@
                        && final(self).workspace() == old(self).workspace())
                    &&& r matches LoadStep::Done(id) ==> id@ == root_or(old(self).root(), path@)
                    &&& r is Find ==> final(self).root() == old(self).root()
                    &&& old(self).depth() > 0 ==> {
                        let after = advanced(
                            old(self).pending().drop_last(),
                            bound(old(self).pending().last(), path@),
                        );
                        &&& final(self).pending() == after.pending
                        &&& step_view(r) == after.step
                        &&& settled_in(final(self).workspace(), after.settled)
                    }
                } else {
                    &&& r matches LoadStep::Load(id) && id@ == path@
                    &&& final(self).awaited() == Some(path@)
                    &&& final(self).workspace() == old(self).workspace()
                    &&& final(self).depth() == old(self).depth()
                    &&& final(self).root() == old(self).root()
                    &&& final(self).pending() == old(self).pending()
                },
            },
            r is Done ==> final(self).depth() == 0,
            r is Find ==> final(self).depth() > 0,
    {
        match found {
            Found::NotFound => LoadStep::Failed(WorkspaceLoadError::TaskfileNotFound),
            Found::NotCanonical => LoadStep::Failed(WorkspaceLoadError::Canonicalize(searched.to_owned())),
            Found::At(path) => match self.workspace.get_id_from_path(path.as_str()) {
                Some(id) => {
                    let ghost stack1 = self.stack@;
                    match self.stack.pop() {
                    None => LoadStep::Done(id),
                    Some(parent) => {
                        let mut parent = parent;
                        let ghost rest = self.stack@;
                        let ghost last = parent;
                        proof {
                            assert(stack1 =~= rest.push(last));
                            assert(frames_view(stack1).drop_last() =~= frames_view(rest));
                            assert(frames_view(stack1).last() == last.view());
                            assert(last == stack1[stack1.len() - 1]);
                            assert(last.ok(self.workspace) && last.waits());
                        }
                        parent.bind(&id, Ghost(self.workspace));
                        proof {
                            assert forall|i: int| 0 <= i < self.workspace.taskfiles().len() implies self.on_stack(
                                (#[trigger] self.workspace.taskfiles()[i]).id@,
                            ) || settled(self.workspace, self.workspace.taskfiles()[i].imports) || Some(
                                parent.id@,
                            ) == Some(self.workspace.taskfiles()[i].id@) by {
                                let x = self.workspace.taskfiles()[i].id@;
                                if waits_in(stack1, x) {
                                    lemma_popped(rest, last, x);
                                }
                            }
                            assert forall|j: int| 0 <= j < self.stack@.len() implies (
                            #[trigger] self.stack@[j]).ok(self.workspace) && self.stack@[j].waits() by {
                                assert(self.stack@[j] == stack1[j]);
                            }
                        }
                        self.advance(parent)
                    },
                    }
                },
                None => {
                    let id = TaskfileId::from_path(path.as_str());
                    self.awaited = Some(id.duplicate());
                    LoadStep::Load(id)
                },
            },
        }
    }

    /// Reports the taskfile that was to be read, or why it could not be.
    /// The taskfile goes into the workspace, and its imports are looked up
    /// one by one.
    pub fn loaded(&mut self, result: Result<Taskfile, TaskfileLoadError>) -> (r: LoadStep)
        requires
            old(self).inv(),
            old(self).awaited() is Some,
            result matches Ok(taskfile) ==> taskfile.wf() && taskfile.id@ == old(self).awaited()->0
                && bound_imports_known(old(self).workspace(), taskfile.imports),
        ensures
            taskfiles_kept(old(self).workspace(), final(self).workspace()),
            result matches Ok(taskfile) ==> final(self).workspace().has(taskfile.id@) && same_but_imports(
                taskfile,
                final(self).workspace().taskfile(taskfile.id@),
            ),
            final(self).inv(),
            final(self).awaited() is None,
            match result {
                Err(_) => r matches LoadStep::Failed(WorkspaceLoadError::TaskfileLoadError(_))
                    && final(self).workspace() == old(self).workspace()
                        && final(self).pending() == old(self).pending(),
                Ok(taskfile) => {
                    &&& r is Done || r is Find
                    &&& final(self).workspace().ids() == old(self).workspace().ids().push(taskfile.id@)
                    &&& forall|i: int|
                        next_unresolved(taskfile.imports, 0, i) ==> (r matches LoadStep::Find(p) && p@
                            == taskfile.imports.values()[i]->Unresolved_0@
                                && final(self).depth() == old(self).depth() + 1)
                    &&& (forall|i: int| !next_unresolved(taskfile.imports, 0, i)) && old(self).depth()
                        == 0 ==> (r matches LoadStep::Done(id) && id@ == taskfile.id@)
                    &&& r matches LoadStep::Done(id) ==> id@ == root_or(old(self).root(), taskfile.id@)
                    &&& r is Find ==> final(self).root() == Some(
                        root_or(old(self).root(), taskfile.id@),
                    )
                    &&& {
                        let after = advanced(
                            old(self).pending(),
                            Pending { id: taskfile.id@, imports: imports_view(taskfile.imports), next: 0 },
                        );
                        &&& final(self).pending() == after.pending
                        &&& step_view(r) == after.step
                        &&& settled_in(final(self).workspace(), after.settled)
                    }
                },
            },
            r is Done ==> final(self).depth() == 0,
            r is Find ==> final(self).depth() > 0,
    {
        self.awaited = None;
        match result {
            Err(e) => LoadStep::Failed(WorkspaceLoadError::TaskfileLoadError(e)),
            Ok(taskfile) => {
                let frame = Frame {
                    id: taskfile.id.duplicate(),
                    imports: copy_imports(&taskfile.imports),
                    next: 0,
                };
                let ghost ws0 = self.workspace;
                proof {
                    taskfile.imports.lemma_len();
                    frame.imports.lemma_len();
                    assert forall|k: int| 0 <= k < taskfile.imports.values().len() implies import_view(
                        frame.imports.values()[k],
                    ) == import_view(taskfile.imports.values()[k]) by {
                        assert(same_import(taskfile.imports.values()[k], frame.imports.values()[k]));
                    }
                    assert(imports_view(frame.imports) =~= imports_view(taskfile.imports));
                    assert(frame.view() == (Pending {
                        id: taskfile.id@,
                        imports: imports_view(taskfile.imports),
                        next: 0,
                    }));
                }
                self.workspace.insert(taskfile);
                proof {
                    let ws1 = self.workspace;
                    assert forall|k: int|
                        0 <= k < frame.imports.values().len() && (#[trigger] frame.imports.values()[k])
                            is Resolved implies ws1.has(frame.imports.values()[k]->Resolved_0@) by {
                        assert(same_import(taskfile.imports.values()[k], frame.imports.values()[k]));
                    }
                    assert forall|i: int| 0 <= i < ws1.taskfiles().len() implies self.on_stack(
                        (#[trigger] ws1.taskfiles()[i]).id@,
                    ) || settled(ws1, ws1.taskfiles()[i].imports) || Some(frame.id@) == Some(
                        ws1.taskfiles()[i].id@,
                    ) by {
                        if i < ws0.taskfiles().len() {
                            assert(ws1.taskfiles()[i] == ws0.taskfiles()[i]);
                        }
                    }
                    assert forall|j: int| 0 <= j < self.stack@.len() implies (#[trigger] self.stack@[j]).ok(
                        ws1,
                    ) by {
                        assert(self.stack@[j].ok(ws0));
                    }
                    assert forall|i: int|
                        next_unresolved(taskfile.imports, 0, i) <==> next_unresolved(
                            frame.imports,
                            0,
                            i,
                        ) by {
                        if next_unresolved(taskfile.imports, 0, i) {
                            assert(same_import(taskfile.imports.values()[i], frame.imports.values()[i]));
                            assert forall|j: int| 0 <= j < i implies !((#[trigger] frame.imports.values()[j])
                                is Unresolved) by {
                                assert(same_import(taskfile.imports.values()[j], frame.imports.values()[j]));
                            }
                        }
                        if next_unresolved(frame.imports, 0, i) {
                            assert(same_import(taskfile.imports.values()[i], frame.imports.values()[i]));
                            assert forall|j: int| 0 <= j < i implies !((
                            #[trigger] taskfile.imports.values()[j]) is Unresolved) by {
                                assert(same_import(taskfile.imports.values()[j], frame.imports.values()[j]));
                            }
                        }
                    }
                    assert forall|i: int| next_unresolved(taskfile.imports, 0, i)
                        implies frame.imports.values()[i]->Unresolved_0@
                        == taskfile.imports.values()[i]->Unresolved_0@ by {
                        assert(same_import(taskfile.imports.values()[i], frame.imports.values()[i]));
                    }
                }
                self.advance(frame)
            },
        }
    }

    /// Ends the session and gives the workspace back.
    pub fn finish(self) -> (r: Workspace)
        requires
            self.inv(),
        ensures
            r == self.workspace(),
            r.wf(),
            self.depth() == 0 ==> r.closed(),
    {
        proof {
            if self.depth() == 0 {
                self.lemma_idle_is_closed();
            }
        }
        self.workspace
    }
}

} // verus!
