//! The up-to-date oracle: whether a task has to run, and whether its
//! outputs are in order after it ran.
//!
//! The oracle does not look at the file system. Whoever calls it looks at
//! each source and each output and hands over what was found.

use crate::paths::{join, joined_path};
use crate::strmap::StrMap;
use crate::task::task::InstantiatedTask;
use sha2::Digest;
use vstd::prelude::*;

verus! {

/// The SHA-256 digest of a file's contents.
pub type Hash = [u8; 32];

/// The digest that `sha2` computes of a sequence of bytes.
pub uninterp spec fn sha256(data: Seq<u8>) -> Seq<u8>;

/// `sha2::Sha256::digest`: the SHA-256 digest of `data`, 32 bytes.
#[verifier::external_body]
pub(crate) fn sha256_digest(data: &[u8]) -> (r: [u8; 32])
    ensures
        r@ == sha256(data@),
{
    sha2::Sha256::digest(data).into()
}

/// The digest of a file's contents.
pub fn hash_contents(contents: &[u8]) -> (r: Hash)
    ensures
        r@ == sha256(contents@),
{
    sha256_digest(contents)
}

/// Whether two digests are the same.
pub fn hash_eq(a: &Hash, b: &Hash) -> (r: bool)
    ensures
        r == (a@ == b@),
{
    let mut i: usize = 0;
    while i < 32
        invariant
            i <= 32,
            forall|j: int| 0 <= j < i ==> a@[j] == b@[j],
        decreases 32 - i,
    {
        if a[i] != b[i] {
            return false;
        }
        i += 1;
    }
    assert(a@ =~= b@);
    true
}

/// Why a file could not be hashed.
#[derive(Debug)]
pub enum FileHashingError {
    /// The file could not be opened.
    ReadError(String),
    /// Reading the file failed.
    ReadFailed(String),
    /// The digest was not of the length of a hash.
    TryFromSliceError,
}

/// What kind of thing a path leads to.
#[derive(Debug, Clone, Copy, PartialEq, Eq)]
pub enum FileKind {
    File,
    Directory,
    Other,
}

/// What was found at the path of a source.
#[derive(Debug)]
pub enum SourceProbe {
    /// Nothing is there.
    Missing,
    /// Something is there, but its time of modification could not be read.
    Unreadable(String),
    /// Something is there, last modified at this time.
    Found { modified: u128 },
}

/// What was found at the path of an output.
#[derive(Debug)]
pub enum OutputProbe {
    /// Nothing is there.
    Missing,
    /// Something is there, but it could not be looked at.
    Unreadable(String),
    /// Something is there. Of a file, `hash` holds the digest of its contents
    /// or the reason why there is none; of anything else it is not looked at.
    Found { modified: u128, kind: FileKind, hash: Result<Hash, FileHashingError> },
}

/// Why the newest time of modification of the sources is not known.
#[derive(Debug)]
pub enum InputTimestampError {
    /// The source at this path does not exist.
    SourceFileMissing(String),
    /// The source at this path could not be looked at.
    Unreadable(String, String),
}

/// Why it is not known whether the sources have changed.
#[derive(Debug)]
pub enum SourceChangeCheckError {
    InputTimestampError(InputTimestampError),
    /// The output at this path could not be looked at.
    OutputTimestampError(String, String),
    /// The output at this path could not be hashed.
    InputFileHashingError(String, FileHashingError),
}

/// Why it is not known whether a task has to run.
#[derive(Debug)]
pub enum RunError {
    SourceChangeCheckError(SourceChangeCheckError),
}

/// What is wrong with the outputs of a task.
#[derive(Debug)]
pub enum OutputCheckError {
    InputTimestampError(InputTimestampError),
    /// The output at this path could not be looked at.
    OutputTimestampError(String, String),
    /// The output at this path does not exist.
    OutputFileNotFound(String),
    /// The output at this path is older than the newest source.
    OutputOlderThanSources(String),
    /// An output could not be hashed.
    SourceChangeCheckError(FileHashingError),
}

/// The paths of the sources of a task, each taken from its working directory.
pub open spec fn source_paths(task: InstantiatedTask) -> Seq<Seq<char>> {
    Seq::new(
        task.body.sources@.len(),
        |i: int| joined_path(task.body.workdir@, task.body.sources@[i]@),
    )
}

/// The paths of the outputs of a task, each taken from its working directory.
pub open spec fn output_paths(task: InstantiatedTask) -> Seq<Seq<char>> {
    Seq::new(
        task.body.outputs.paths@.len(),
        |i: int| joined_path(task.body.workdir@, task.body.outputs.paths@[i].path()),
    )
}

/// Whether a source is passed over: it was seen unchanged earlier in the run.
pub open spec fn passed_over(not_changed: Map<Seq<char>, bool>, path: Seq<char>) -> bool {
    not_changed.dom().contains(path) && not_changed[path]
}

/// The later of a time and a time that may not be there.
pub open spec fn later(acc: Option<u128>, t: u128) -> u128 {
    match acc {
        Some(a) => if t > a {
            t
        } else {
            a
        },
        None => t,
    }
}

/// The newest time of modification among the sources that are not passed
/// over, or the position of the first of them that is not there or cannot be
/// looked at. `None` where every source is passed over.
pub open spec fn newest_source(
    paths: Seq<Seq<char>>,
    probes: Seq<SourceProbe>,
    not_changed: Map<Seq<char>, bool>,
) -> Result<Option<u128>, int>
    decreases paths.len(),
{
    if paths.len() == 0 {
        Ok(None)
    } else {
        match newest_source(paths.drop_last(), probes.drop_last(), not_changed) {
            Err(i) => Err(i),
            Ok(acc) => if passed_over(not_changed, paths.last()) {
                Ok(acc)
            } else {
                match probes.last() {
                    SourceProbe::Found { modified } => Ok(Some(later(acc, modified))),
                    _ => Err(paths.len() - 1),
                }
            },
        }
    }
}

/// The newest source is no newer than a time that no found source is newer than.
pub proof fn lemma_newest_is_bounded(
    paths: Seq<Seq<char>>,
    probes: Seq<SourceProbe>,
    not_changed: Map<Seq<char>, bool>,
    bound: u128,
)
    requires
        paths.len() == probes.len(),
        forall|i: int|
            0 <= i < probes.len() ==> ((#[trigger] probes[i]) matches SourceProbe::Found { modified }
                ==> modified <= bound),
    ensures
        newest_source(paths, probes, not_changed) matches Ok(Some(t)) ==> t <= bound,
    decreases paths.len(),
{
    if paths.len() > 0 {
        assert forall|i: int| 0 <= i < probes.drop_last().len()
            implies ((#[trigger] probes.drop_last()[i]) matches SourceProbe::Found {
            modified,
        } ==> modified <= bound) by {
            assert(probes.drop_last()[i] == probes[i]);
        }
        lemma_newest_is_bounded(paths.drop_last(), probes.drop_last(), not_changed, bound);
        assert(probes.last() == probes[probes.len() - 1]);
    }
}

/// Where every source is found, the newest source is known.
pub proof fn lemma_newest_is_known(
    paths: Seq<Seq<char>>,
    probes: Seq<SourceProbe>,
    not_changed: Map<Seq<char>, bool>,
)
    requires
        paths.len() == probes.len(),
        forall|i: int| 0 <= i < probes.len() ==> (#[trigger] probes[i]) is Found,
    ensures
        newest_source(paths, probes, not_changed) is Ok,
    decreases paths.len(),
{
    if paths.len() > 0 {
        assert forall|i: int| 0 <= i < probes.drop_last().len()
            implies (#[trigger] probes.drop_last()[i]) is Found by {
            assert(probes.drop_last()[i] == probes[i]);
        }
        lemma_newest_is_known(paths.drop_last(), probes.drop_last(), not_changed);
        assert(probes.last() == probes[probes.len() - 1]);
    }
}

/// Whether the outputs ask for a run: one of them is missing, or older than
/// the newest source. Or the position of the first output that cannot be
/// looked at, or that is a file and cannot be hashed.
pub open spec fn outputs_stale(probes: Seq<OutputProbe>, newest: Option<u128>) -> Result<bool, int>
    decreases probes.len(),
{
    if probes.len() == 0 {
        Ok(false)
    } else {
        match outputs_stale(probes.drop_last(), newest) {
            Err(i) => Err(i),
            Ok(changed) => match probes.last() {
                OutputProbe::Missing => Ok(true),
                OutputProbe::Unreadable(_) => Err(probes.len() - 1),
                OutputProbe::Found { modified, kind, hash } => if kind == FileKind::File && hash is Err {
                    Err(probes.len() - 1)
                } else {
                    Ok(changed || (newest is Some && modified < newest->0))
                },
            },
        }
    }
}

/// Where every output is found, every output that is a file can be hashed,
/// and none is older than the newest source, the outputs do not ask for a
/// run.
pub proof fn lemma_fresh_outputs(probes: Seq<OutputProbe>, newest: Option<u128>)
    requires
        forall|i: int|
            0 <= i < probes.len() ==> ((#[trigger] probes[i]) matches OutputProbe::Found {
                modified,
                kind,
                hash,
            } && (kind == FileKind::File ==> hash is Ok) && (newest is Some ==> modified >= newest->0)),
    ensures
        outputs_stale(probes, newest) == Ok::<bool, int>(false),
    decreases probes.len(),
{
    if probes.len() > 0 {
        assert forall|i: int| 0 <= i < probes.drop_last().len()
            implies ((#[trigger] probes.drop_last()[i]) matches OutputProbe::Found {
            modified,
            kind,
            hash,
        } && (kind == FileKind::File ==> hash is Ok) && (newest is Some ==> modified >= newest->0)) by {
            assert(probes.drop_last()[i] == probes[i]);
        }
        lemma_fresh_outputs(probes.drop_last(), newest);
        assert(probes.last() == probes[probes.len() - 1]);
    }
}

/// Where every output can be looked at and hashed, it is known whether the
/// outputs ask for a run.
pub proof fn lemma_outputs_known(probes: Seq<OutputProbe>, newest: Option<u128>)
    requires
        forall|i: int|
            0 <= i < probes.len() ==> !((#[trigger] probes[i]) is Unreadable)
                && (probes[i] matches OutputProbe::Found {
                modified,
                kind,
                hash,
            } ==> (kind == FileKind::File ==> hash is Ok)),
    ensures
        outputs_stale(probes, newest) is Ok,
    decreases probes.len(),
{
    if probes.len() > 0 {
        assert forall|i: int| 0 <= i < probes.drop_last().len()
            implies !((#[trigger] probes.drop_last()[i]) is Unreadable)
            && (probes.drop_last()[i] matches OutputProbe::Found { modified, kind, hash } ==> (kind
                == FileKind::File ==> hash is Ok)) by {
            assert(probes.drop_last()[i] == probes[i]);
        }
        lemma_outputs_known(probes.drop_last(), newest);
        assert(probes.last() == probes[probes.len() - 1]);
    }
}

/// The decision of the oracle before a task runs.
pub enum Verdict {
    /// The task has to run, or has not.
    Run(bool),
    /// The source at this position is not there or cannot be looked at.
    SourceFailed(int),
    /// The output at this position cannot be looked at or hashed.
    OutputFailed(int),
}

/// Whether a task has to run: always where it declares no output; never
/// where it declares outputs but no steps; else where an output is missing
/// or older than the newest source, or where the task is phony.
pub open spec fn verdict(
    task: InstantiatedTask,
    sources: Seq<SourceProbe>,
    outputs: Seq<OutputProbe>,
    not_changed: Map<Seq<char>, bool>,
) -> Verdict {
    if task.body.outputs.paths@.len() == 0 {
        Verdict::Run(true)
    } else if task.body.steps@.len() == 0 {
        Verdict::Run(false)
    } else {
        match newest_source(source_paths(task), sources, not_changed) {
            Err(i) => Verdict::SourceFailed(i),
            Ok(newest) => match outputs_stale(outputs, newest) {
                Err(i) => Verdict::OutputFailed(i),
                Ok(changed) => Verdict::Run(changed || task.body.phony),
            },
        }
    }
}

/// The digests on record after the outputs have been looked at: of each
/// output that is a file, the digest that was found.
pub open spec fn hashes_after(
    hashes: Map<Seq<char>, Hash>,
    paths: Seq<Seq<char>>,
    probes: Seq<OutputProbe>,
) -> Map<Seq<char>, Hash>
    decreases paths.len(),
{
    if paths.len() == 0 {
        hashes
    } else {
        let before = hashes_after(hashes, paths.drop_last(), probes.drop_last());
        match probes.last() {
            OutputProbe::Found { modified, kind, hash } => if kind == FileKind::File && hash is Ok {
                before.insert(paths.last(), hash->Ok_0)
            } else {
                before
            },
            _ => before,
        }
    }
}

/// What the run knows of an output's path after the output of a task has
/// been checked, where the output is a file. Where a digest from before the
/// run is on record, and the path is not known to have changed, the path is
/// unchanged if the task did not run or if the digest is still the `same`.
/// Where none is on record, a path that was not known is now known as changed.
pub open spec fn seen_file(
    not_changed: Map<Seq<char>, bool>,
    hashes: Map<Seq<char>, Hash>,
    path: Seq<char>,
    executed: bool,
    same: bool,
) -> Map<Seq<char>, bool> {
    if hashes.dom().contains(path) {
        if not_changed.dom().contains(path) && !not_changed[path] {
            not_changed
        } else {
            not_changed.insert(path, !executed || same)
        }
    } else if not_changed.dom().contains(path) {
        not_changed
    } else {
        not_changed.insert(path, false)
    }
}

/// Whether the digest of an output file is needed to check it.
pub open spec fn needs_hash(
    not_changed: Map<Seq<char>, bool>,
    hashes: Map<Seq<char>, Hash>,
    path: Seq<char>,
    executed: bool,
) -> bool {
    executed && hashes.dom().contains(path) && !(not_changed.dom().contains(path) && !not_changed[path])
}

/// What is wrong with an output, if anything, given what the run knows when
/// the output is looked at.
pub enum OutputFault {
    NotFound,
    Unreadable,
    Unhashable,
    OlderThanSources,
}

/// The check of one output: what is wrong with it, or what the run knows
/// afterwards.
pub open spec fn check_output(
    not_changed: Map<Seq<char>, bool>,
    hashes: Map<Seq<char>, Hash>,
    path: Seq<char>,
    probe: OutputProbe,
    executed: bool,
    newest: Option<u128>,
) -> Result<Map<Seq<char>, bool>, OutputFault> {
    match probe {
        OutputProbe::Missing => Err(OutputFault::NotFound),
        OutputProbe::Unreadable(_) => Err(OutputFault::Unreadable),
        OutputProbe::Found { modified, kind, hash } => if kind == FileKind::File && hash is Err
            && needs_hash(not_changed, hashes, path, executed) {
            Err(OutputFault::Unhashable)
        } else if newest is Some && modified < newest->0 {
            Err(OutputFault::OlderThanSources)
        } else if kind == FileKind::File {
            Ok(
                seen_file(
                    not_changed,
                    hashes,
                    path,
                    executed,
                    hash is Ok && hashes.dom().contains(path) && hash->Ok_0@ == hashes[path]@,
                ),
            )
        } else {
            Ok(not_changed)
        },
    }
}

/// The check of the outputs in order: the position and the fault of the
/// first output with which something is wrong, or what the run knows after
/// all of them.
pub open spec fn check_all(
    not_changed: Map<Seq<char>, bool>,
    hashes: Map<Seq<char>, Hash>,
    paths: Seq<Seq<char>>,
    probes: Seq<OutputProbe>,
    executed: bool,
    newest: Option<u128>,
) -> Result<Map<Seq<char>, bool>, (int, OutputFault)>
    decreases paths.len(),
{
    if paths.len() == 0 {
        Ok(not_changed)
    } else {
        match check_all(not_changed, hashes, paths.drop_last(), probes.drop_last(), executed, newest) {
            Err(e) => Err(e),
            Ok(known) => match check_output(known, hashes, paths.last(), probes.last(), executed, newest) {
                Ok(after) => Ok(after),
                Err(fault) => Err((paths.len() - 1, fault)),
            },
        }
    }
}

/// The oracle of a run. It remembers, for the paths it has seen, whether
/// they are unchanged since the run began.
#[derive(Debug)]
pub struct NaiveTriggerChecker {
    not_changed: StrMap<bool>,
}

impl NaiveTriggerChecker {
    /// What the run knows: for each path seen, whether it is unchanged.
    pub closed spec fn known(&self) -> Map<Seq<char>, bool> {
        self.not_changed.model()
    }

    pub closed spec fn wf(&self) -> bool {
        self.not_changed.wf()
    }

    /// An oracle that has seen nothing.
    pub fn new() -> (r: Self)
        ensures
            r.wf(),
            r.known() =~= Map::empty(),
    {
        NaiveTriggerChecker { not_changed: StrMap::new() }
    }

    /// The record of a task's outputs before it runs: empty.
    pub fn new_task_context(&self) -> (r: StrMap<Hash>)
        ensures
            r.wf(),
            r.model() =~= Map::empty(),
    {
        StrMap::new()
    }

    /// Whether a path is known as unchanged.
    pub fn is_unchanged(&self, path: &str) -> (r: bool)
        requires
            self.wf(),
        ensures
            r == passed_over(self.known(), path@),
    {
        match self.not_changed.get(path) {
            Some(b) => *b,
            None => false,
        }
    }

    /// The newest time of modification among the sources of `task` that are
    /// not known as unchanged.
    pub fn newest_input_timestamp(&self, task: &InstantiatedTask, sources: &Vec<SourceProbe>) -> (r:
        Result<Option<u128>, InputTimestampError>)
        requires
            self.wf(),
            sources@.len() == task.body.sources@.len(),
        ensures
            match r {
                Ok(t) => newest_source(source_paths(*task), sources@, self.known()) == Ok::<
                    Option<u128>,
                    int,
                >(t),
                Err(e) => newest_source(source_paths(*task), sources@, self.known()) matches Err(i) && 0
                    <= i < sources@.len() && match e {
                    InputTimestampError::SourceFileMissing(path) => sources@[i] is Missing && path@
                        == source_paths(*task)[i],
                    InputTimestampError::Unreadable(path, _) => sources@[i] is Unreadable && path@
                        == source_paths(*task)[i],
                },
            },
    {
        let mut newest: Option<u128> = None;
        let mut i: usize = 0;
        let ghost paths = source_paths(*task);
        assert(paths.take(0) =~= Seq::empty());
        while i < sources.len()
            invariant
                i <= sources@.len(),
                self.wf(),
                sources@.len() == task.body.sources@.len(),
                paths == source_paths(*task),
                newest_source(paths.take(i as int), sources@.take(i as int), self.known()) == Ok::<
                    Option<u128>,
                    int,
                >(newest),
            decreases sources@.len() - i,
        {
            let path = join(task.body.workdir.as_str(), task.body.sources[i].as_str());
            proof {
                assert(paths.take(i + 1).drop_last() =~= paths.take(i as int));
                assert(sources@.take(i + 1).drop_last() =~= sources@.take(i as int));
                assert(paths.take(i + 1).last() == path@);
                assert(sources@.take(i + 1).last() == sources@[i as int]);
            }
            if !self.is_unchanged(path.as_str()) {
                match &sources[i] {
                    SourceProbe::Found { modified } => {
                        newest = match newest {
                            Some(a) => if *modified > a {
                                Some(*modified)
                            } else {
                                Some(a)
                            },
                            None => Some(*modified),
                        };
                    },
                    SourceProbe::Missing => {
                        proof {
                            lemma_source_failure_stays(paths, sources@, self.known(), i as int);
                        }
                        return Err(InputTimestampError::SourceFileMissing(path));
                    },
                    SourceProbe::Unreadable(message) => {
                        proof {
                            lemma_source_failure_stays(paths, sources@, self.known(), i as int);
                        }
                        return Err(InputTimestampError::Unreadable(path, message.clone()));
                    },
                }
            }
            i += 1;
        }
        proof {
            assert(paths.take(paths.len() as int) =~= paths);
            assert(sources@.take(sources@.len() as int) =~= sources@);
        }
        Ok(newest)
    }

    /// Decides whether `task` has to run, from what was found at the paths
    /// of its sources and outputs. The digest of every output that is a
    /// file is put on record in `context`.
    ///
    /// A task without declared outputs always runs; one with outputs but
    /// without steps never does. Otherwise the task runs where an output is
    /// missing or older than the newest source, or where the task is phony.
    pub fn should_run(
        &self,
        task: &InstantiatedTask,
        context: &mut StrMap<Hash>,
        sources: &Vec<SourceProbe>,
        outputs: &Vec<OutputProbe>,
    ) -> (r: Result<bool, RunError>)
        requires
            self.wf(),
            old(context).wf(),
            sources@.len() == task.body.sources@.len(),
            outputs@.len() == task.body.outputs.paths@.len(),
        ensures
            final(context).wf(),
            match verdict(*task, sources@, outputs@, self.known()) {
                Verdict::Run(run) => r == Ok::<bool, RunError>(run),
                Verdict::SourceFailed(i) => r matches Err(
                    RunError::SourceChangeCheckError(SourceChangeCheckError::InputTimestampError(_)),
                ),
                Verdict::OutputFailed(i) => 0 <= i < outputs@.len() && match r {
                    Err(
                        RunError::SourceChangeCheckError(
                            SourceChangeCheckError::OutputTimestampError(path, _),
                        ),
                    ) => outputs@[i] is Unreadable && path@ == output_paths(*task)[i],
                    Err(
                        RunError::SourceChangeCheckError(
                            SourceChangeCheckError::InputFileHashingError(path, _),
                        ),
                    ) => outputs@[i] is Found && path@ == output_paths(*task)[i],
                    _ => false,
                },
            },
            r is Ok && task.body.outputs.paths@.len() > 0 && task.body.steps@.len() > 0
                ==> final(context).model() == hashes_after(
                old(context).model(),
                output_paths(*task),
                outputs@,
            ),
            r is Ok && (task.body.outputs.paths@.len() == 0 || task.body.steps@.len() == 0)
                ==> final(context).model() == old(context).model(),
    {
        if task.body.outputs.paths.len() == 0 {
            return Ok(true);
        }
        if task.body.steps.len() == 0 {
            return Ok(false);
        }
        let newest = match self.newest_input_timestamp(task, sources) {
            Ok(t) => t,
            Err(e) => {
                return Err(
                    RunError::SourceChangeCheckError(SourceChangeCheckError::InputTimestampError(e)),
                );
            },
        };
        let mut changed = false;
        let mut i: usize = 0;
        let ghost paths = output_paths(*task);
        assert(paths.take(0) =~= Seq::empty());
        assert(outputs@.take(0) =~= Seq::empty());
        while i < outputs.len()
            invariant
                i <= outputs@.len(),
                context.wf(),
                outputs@.len() == task.body.outputs.paths@.len(),
                paths == output_paths(*task),
                task.body.outputs.paths@.len() > 0,
                task.body.steps@.len() > 0,
                newest_source(source_paths(*task), sources@, self.known()) == Ok::<Option<u128>, int>(
                    newest,
                ),
                outputs_stale(outputs@.take(i as int), newest) == Ok::<bool, int>(changed),
                context.model() == hashes_after(
                    old(context).model(),
                    paths.take(i as int),
                    outputs@.take(i as int),
                ),
            decreases outputs@.len() - i,
        {
            let path = join(task.body.workdir.as_str(), task.body.outputs.paths[i].as_str());
            proof {
                assert(paths.take(i + 1).drop_last() =~= paths.take(i as int));
                assert(outputs@.take(i + 1).drop_last() =~= outputs@.take(i as int));
                assert(paths.take(i + 1).last() == path@);
                assert(outputs@.take(i + 1).last() == outputs@[i as int]);
                assert(path@ == output_paths(*task)[i as int]);
            }
            match &outputs[i] {
                OutputProbe::Missing => {
                    changed = true;
                },
                OutputProbe::Unreadable(message) => {
                    proof {
                        lemma_output_failure_stays(outputs@, newest, i as int);
                    }
                    return Err(
                        RunError::SourceChangeCheckError(
                            SourceChangeCheckError::OutputTimestampError(path, message.clone()),
                        ),
                    );
                },
                OutputProbe::Found { modified, kind, hash } => {
                    let is_file = matches!(kind, FileKind::File);
                    if is_file {
                        match hash {
                            Ok(h) => {
                                let _ = context.insert(path, *h);
                            },
                            Err(e) => {
                                proof {
                                    lemma_output_failure_stays(outputs@, newest, i as int);
                                }
                                return Err(
                                    RunError::SourceChangeCheckError(
                                        SourceChangeCheckError::InputFileHashingError(
                                            path,
                                            copy_hashing_error(e),
                                        ),
                                    ),
                                );
                            },
                        }
                    }
                    match newest {
                        Some(t) => {
                            if *modified < t {
                                changed = true;
                            }
                        },
                        None => {},
                    }
                },
            }
            i += 1;
        }
        proof {
            assert(paths.take(paths.len() as int) =~= paths);
            assert(outputs@.take(outputs@.len() as int) =~= outputs@);
        }
        Ok(changed || task.body.phony)
    }
}

impl NaiveTriggerChecker {
    /// Checks the outputs of `task` after the task ran, or was found up to
    /// date, from what is found at the paths of its sources and outputs
    /// now. Every output has to be there, and none may be older than the
    /// newest source. Of each output that is a file the run then knows
    /// whether it is unchanged: see [`seen_file`].
    pub fn check_outputs(
        &mut self,
        task: &InstantiatedTask,
        context: &StrMap<Hash>,
        executed: bool,
        sources: &Vec<SourceProbe>,
        outputs: &Vec<OutputProbe>,
    ) -> (r: Result<(), OutputCheckError>)
        requires
            old(self).wf(),
            context.wf(),
            sources@.len() == task.body.sources@.len(),
            outputs@.len() == task.body.outputs.paths@.len(),
        ensures
            final(self).wf(),
            match newest_source(source_paths(*task), sources@, old(self).known()) {
                Err(_) => r matches Err(OutputCheckError::InputTimestampError(_)),
                Ok(newest) => match check_all(
                    old(self).known(),
                    context.model(),
                    output_paths(*task),
                    outputs@,
                    executed,
                    newest,
                ) {
                    Ok(known) => r is Ok && final(self).known() == known,
                    Err((i, fault)) => 0 <= i < outputs@.len() && match r {
                        Err(OutputCheckError::OutputFileNotFound(path)) => fault is NotFound && path@
                            == output_paths(*task)[i],
                        Err(OutputCheckError::OutputTimestampError(path, _)) => fault is Unreadable
                            && path@ == output_paths(*task)[i],
                        Err(OutputCheckError::SourceChangeCheckError(_)) => fault is Unhashable,
                        Err(OutputCheckError::OutputOlderThanSources(path)) => fault
                            is OlderThanSources && path@ == output_paths(*task)[i],
                        _ => false,
                    },
                },
            },
    {
        let newest = match self.newest_input_timestamp(task, sources) {
            Ok(t) => t,
            Err(e) => {
                return Err(OutputCheckError::InputTimestampError(e));
            },
        };
        let ghost known0 = self.known();
        let ghost hashes = context.model();
        let ghost paths = output_paths(*task);
        let mut i: usize = 0;
        assert(paths.take(0) =~= Seq::empty());
        assert(outputs@.take(0) =~= Seq::empty());
        while i < outputs.len()
            invariant
                i <= outputs@.len(),
                self.wf(),
                context.wf(),
                hashes == context.model(),
                outputs@.len() == task.body.outputs.paths@.len(),
                paths == output_paths(*task),
                paths.len() == outputs@.len(),
                known0 == old(self).known(),
                newest_source(source_paths(*task), sources@, known0) == Ok::<Option<u128>, int>(newest),
                check_all(known0, hashes, paths.take(i as int), outputs@.take(i as int), executed, newest)
                    == Ok::<Map<Seq<char>, bool>, (int, OutputFault)>(self.known()),
            decreases outputs@.len() - i,
        {
            let path = join(task.body.workdir.as_str(), task.body.outputs.paths[i].as_str());
            let ghost known = self.known();
            proof {
                assert(paths.take(i + 1).drop_last() =~= paths.take(i as int));
                assert(outputs@.take(i + 1).drop_last() =~= outputs@.take(i as int));
                assert(paths.take(i + 1).last() == path@);
                assert(outputs@.take(i + 1).last() == outputs@[i as int]);
                assert(path@ == paths[i as int]);
            }
            match &outputs[i] {
                OutputProbe::Missing => {
                    proof {
                        lemma_check_failure_stays(known0, hashes, paths, outputs@, executed, newest, i as int);
                    }
                    return Err(OutputCheckError::OutputFileNotFound(path));
                },
                OutputProbe::Unreadable(message) => {
                    proof {
                        lemma_check_failure_stays(known0, hashes, paths, outputs@, executed, newest, i as int);
                    }
                    return Err(OutputCheckError::OutputTimestampError(path, message.clone()));
                },
                OutputProbe::Found { modified, kind, hash } => {
                    let is_file = matches!(kind, FileKind::File);
                    if is_file {
                        match context.get(path.as_str()) {
                            Some(previous) => {
                                let known_changed = match self.not_changed.get(path.as_str()) {
                                    Some(b) => !*b,
                                    None => false,
                                };
                                if !known_changed {
                                    let unchanged = if !executed {
                                        true
                                    } else {
                                        match hash {
                                            Ok(h) => hash_eq(h, previous),
                                            Err(e) => {
                                                proof {
                                                    lemma_check_failure_stays(
                                                        known0,
                                                        hashes,
                                                        paths,
                                                        outputs@,
                                                        executed,
                                                        newest,
                                                        i as int,
                                                    );
                                                }
                                                return Err(
                                                    OutputCheckError::SourceChangeCheckError(
                                                        copy_hashing_error(e),
                                                    ),
                                                );
                                            },
                                        }
                                    };
                                    let _ = self.not_changed.insert(path.clone(), unchanged);
                                }
                            },
                            None => {
                                if !self.not_changed.contains_key(path.as_str()) {
                                    let _ = self.not_changed.insert(path.clone(), false);
                                }
                            },
                        }
                    }
                    match newest {
                        Some(t) => {
                            if *modified < t {
                                proof {
                                    lemma_check_failure_stays(
                                        known0,
                                        hashes,
                                        paths,
                                        outputs@,
                                        executed,
                                        newest,
                                        i as int,
                                    );
                                }
                                return Err(OutputCheckError::OutputOlderThanSources(path));
                            }
                        },
                        None => {},
                    }
                    assert(check_output(known, hashes, path@, outputs@[i as int], executed, newest)
                        == Ok::<Map<Seq<char>, bool>, OutputFault>(self.known()));
                },
            }
            i += 1;
        }
        proof {
            assert(paths.take(paths.len() as int) =~= paths);
            assert(outputs@.take(outputs@.len() as int) =~= outputs@);
        }
        Ok(())
    }
}

/// An output that fails the check after the first outputs passed fails the
/// check of all outputs.
pub proof fn lemma_check_failure_stays(
    not_changed: Map<Seq<char>, bool>,
    hashes: Map<Seq<char>, Hash>,
    paths: Seq<Seq<char>>,
    probes: Seq<OutputProbe>,
    executed: bool,
    newest: Option<u128>,
    i: int,
)
    requires
        paths.len() == probes.len(),
        0 <= i < paths.len(),
        check_all(not_changed, hashes, paths.take(i), probes.take(i), executed, newest) is Ok,
        check_output(
            check_all(not_changed, hashes, paths.take(i), probes.take(i), executed, newest)->Ok_0,
            hashes,
            paths[i],
            probes[i],
            executed,
            newest,
        ) is Err,
    ensures
        check_all(not_changed, hashes, paths, probes, executed, newest) == Err::<
            Map<Seq<char>, bool>,
            (int, OutputFault),
        >(
            (
                i,
                check_output(
                    check_all(not_changed, hashes, paths.take(i), probes.take(i), executed, newest)->Ok_0,
                    hashes,
                    paths[i],
                    probes[i],
                    executed,
                    newest,
                )->Err_0,
            ),
        ),
    decreases paths.len(),
{
    if paths.len() - 1 == i {
        assert(paths.drop_last() =~= paths.take(i));
        assert(probes.drop_last() =~= probes.take(i));
    } else {
        assert(paths.drop_last().take(i) =~= paths.take(i));
        assert(probes.drop_last().take(i) =~= probes.take(i));
        lemma_check_failure_stays(
            not_changed,
            hashes,
            paths.drop_last(),
            probes.drop_last(),
            executed,
            newest,
            i,
        );
    }
}

/// A task that is not phony, and whose outputs are all there and no older
/// than any of its sources, is skipped.
pub proof fn lemma_up_to_date_task_is_skipped(
    task: InstantiatedTask,
    sources: Seq<SourceProbe>,
    outputs: Seq<OutputProbe>,
    not_changed: Map<Seq<char>, bool>,
)
    requires
        sources.len() == task.body.sources@.len(),
        outputs.len() == task.body.outputs.paths@.len(),
        outputs.len() > 0,
        !task.body.phony,
        forall|i: int| 0 <= i < sources.len() ==> (#[trigger] sources[i]) is Found,
        forall|i: int|
            0 <= i < outputs.len() ==> ((#[trigger] outputs[i]) matches OutputProbe::Found {
                modified,
                kind,
                hash,
            } && (kind == FileKind::File ==> hash is Ok)),
        forall|i: int, j: int|
            0 <= i < outputs.len() && 0 <= j < sources.len() ==> (#[trigger] outputs[i])->modified >= (
            #[trigger] sources[j])->modified,
    ensures
        verdict(task, sources, outputs, not_changed) == Verdict::Run(false),
{
    if task.body.steps@.len() > 0 {
        let paths = source_paths(task);
        lemma_newest_is_known(paths, sources, not_changed);
        let newest = newest_source(paths, sources, not_changed)->Ok_0;
        assert forall|i: int| 0 <= i < outputs.len() implies ((#[trigger] outputs[i]) matches OutputProbe::Found {
            modified,
            kind,
            hash,
        } && (kind == FileKind::File ==> hash is Ok) && (newest is Some ==> modified >= newest->0)) by {
            let bound = outputs[i]->modified;
            assert forall|j: int| 0 <= j < sources.len()
                implies ((#[trigger] sources[j]) matches SourceProbe::Found {
                modified,
            } ==> modified <= bound) by {
                assert(outputs[i]->modified >= sources[j]->modified);
            }
            lemma_newest_is_bounded(paths, sources, not_changed, bound);
        }
        lemma_fresh_outputs(outputs, newest);
    }
}

/// A task without declared outputs always runs. A phony task with outputs
/// and steps runs whenever the oracle comes to a decision.
pub proof fn lemma_always_run(
    task: InstantiatedTask,
    sources: Seq<SourceProbe>,
    outputs: Seq<OutputProbe>,
    not_changed: Map<Seq<char>, bool>,
)
    ensures
        task.body.outputs.paths@.len() == 0 ==> verdict(task, sources, outputs, not_changed)
            == Verdict::Run(true),
        task.body.phony && task.body.steps@.len() > 0 && verdict(task, sources, outputs, not_changed)
            is Run ==> verdict(task, sources, outputs, not_changed) == Verdict::Run(true),
        task.body.phony && task.body.steps@.len() > 0 && sources.len() == task.body.sources@.len() && (
        forall|i: int| 0 <= i < sources.len() ==> (#[trigger] sources[i]) is Found) && (forall|i: int|
            0 <= i < outputs.len() ==> !((#[trigger] outputs[i]) is Unreadable) && (
            outputs[i] matches OutputProbe::Found { modified, kind, hash } ==> (kind == FileKind::File
                ==> hash is Ok))) ==> verdict(
            task,
            sources,
            outputs,
            not_changed,
        ) == Verdict::Run(true),
{
    if task.body.phony && task.body.steps@.len() > 0 && sources.len() == task.body.sources@.len() && (
    forall|i: int| 0 <= i < sources.len() ==> (#[trigger] sources[i]) is Found) && (forall|i: int|
        0 <= i < outputs.len() ==> !((#[trigger] outputs[i]) is Unreadable) && (
        outputs[i] matches OutputProbe::Found { modified, kind, hash } ==> (kind == FileKind::File
            ==> hash is Ok))) {
        if task.body.outputs.paths@.len() > 0 {
            lemma_newest_is_known(source_paths(task), sources, not_changed);
            let newest = newest_source(source_paths(task), sources, not_changed)->Ok_0;
            lemma_outputs_known(outputs, newest);
        }
    }
}

/// A copy of an error.
pub fn copy_hashing_error(e: &FileHashingError) -> (r: FileHashingError)
    ensures
        match *e {
            FileHashingError::ReadError(m) => r matches FileHashingError::ReadError(n) && n@ == m@,
            FileHashingError::ReadFailed(m) => r matches FileHashingError::ReadFailed(n) && n@ == m@,
            FileHashingError::TryFromSliceError => r is TryFromSliceError,
        },
{
    match e {
        FileHashingError::ReadError(m) => FileHashingError::ReadError(m.clone()),
        FileHashingError::ReadFailed(m) => FileHashingError::ReadFailed(m.clone()),
        FileHashingError::TryFromSliceError => FileHashingError::TryFromSliceError,
    }
}

/// A source that fails among the first sources fails among all of them,
/// where none before it fails.
pub proof fn lemma_source_failure_stays(
    paths: Seq<Seq<char>>,
    probes: Seq<SourceProbe>,
    not_changed: Map<Seq<char>, bool>,
    i: int,
)
    requires
        paths.len() == probes.len(),
        0 <= i < paths.len(),
        newest_source(paths.take(i), probes.take(i), not_changed) is Ok,
        !passed_over(not_changed, paths[i]),
        !(probes[i] is Found),
    ensures
        newest_source(paths, probes, not_changed) == Err::<Option<u128>, int>(i),
    decreases paths.len(),
{
    if paths.len() - 1 == i {
        assert(paths.drop_last() =~= paths.take(i));
        assert(probes.drop_last() =~= probes.take(i));
    } else {
        assert(paths.drop_last().take(i) =~= paths.take(i));
        assert(probes.drop_last().take(i) =~= probes.take(i));
        lemma_source_failure_stays(paths.drop_last(), probes.drop_last(), not_changed, i);
    }
}

/// An output that fails among the first outputs fails among all of them,
/// where none before it fails.
pub proof fn lemma_output_failure_stays(probes: Seq<OutputProbe>, newest: Option<u128>, i: int)
    requires
        0 <= i < probes.len(),
        outputs_stale(probes.take(i), newest) is Ok,
        probes[i] is Unreadable || (probes[i] matches OutputProbe::Found { modified, kind, hash } && kind
            == FileKind::File && hash is Err),
    ensures
        outputs_stale(probes, newest) == Err::<bool, int>(i),
    decreases probes.len(),
{
    if probes.len() - 1 == i {
        assert(probes.drop_last() =~= probes.take(i));
    } else {
        assert(probes.drop_last().take(i) =~= probes.take(i));
        lemma_output_failure_stays(probes.drop_last(), newest, i);
    }
}

} // verus!
