use birb_task::command::Command;
use birb_task::run::execution::triggers::{
    hash_contents, hash_eq, FileHashingError, FileKind, InputTimestampError, NaiveTriggerChecker,
    OutputCheckError, OutputProbe, RunError, SourceChangeCheckError, SourceProbe,
};
use birb_task::task::task::{InstantiatedTask, OutputPath, Task};

fn task(sources: &[&str], outputs: &[&str], steps: &[&str], phony: bool) -> InstantiatedTask {
    let mut body = Task::new("build").body;
    body.workdir = "/w".to_string();
    body.sources = sources.iter().map(|s| s.to_string()).collect();
    body.outputs.paths = outputs.iter().map(|s| OutputPath::File(s.to_string())).collect();
    body.steps = steps.iter().map(|s| Command::Shell(s.to_string())).collect();
    body.phony = phony;
    InstantiatedTask { name: "build".to_string(), body }
}

fn source(modified: u128) -> SourceProbe {
    SourceProbe::Found { modified }
}

fn file(modified: u128, contents: &[u8]) -> OutputProbe {
    OutputProbe::Found { modified, kind: FileKind::File, hash: Ok(hash_contents(contents)) }
}

#[test]
fn sha256_of_known_inputs() {
    let empty = hash_contents(b"");
    assert_eq!(
        empty.iter().map(|b| format!("{:02x}", b)).collect::<String>(),
        "e3b0c44298fc1c149afbf4c8996fb92427ae41e4649b934ca495991b7852b855"
    );
    let abc = hash_contents(b"abc");
    assert_eq!(
        abc.iter().map(|b| format!("{:02x}", b)).collect::<String>(),
        "ba7816bf8f01cfea414140de5dae2223b00361a396177a9cb410ff61f20015ad"
    );
    assert!(hash_eq(&abc, &hash_contents(b"abc")));
    assert!(!hash_eq(&abc, &empty));
    let mut other = abc;
    other[31] ^= 1;
    assert!(!hash_eq(&abc, &other));
}

#[test]
fn up_to_date_task_is_skipped_and_runs_after_a_touch() {
    let t = task(&["src.txt"], &["out.bin"], &["make"], false);
    let oracle = NaiveTriggerChecker::new();
    let mut ctx = oracle.new_task_context();
    // out.bin is newer than src.txt
    let run = oracle.should_run(&t, &mut ctx, &vec![source(100)], &vec![file(200, b"o")]).unwrap();
    assert!(!run);
    // the digest of the output is on record, under its path from the working directory
    assert!(hash_eq(ctx.get("/w/out.bin").unwrap(), &hash_contents(b"o")));
    // touch src.txt
    let mut ctx = oracle.new_task_context();
    let run = oracle.should_run(&t, &mut ctx, &vec![source(300)], &vec![file(200, b"o")]).unwrap();
    assert!(run);
}

#[test]
fn equal_times_count_as_up_to_date() {
    let t = task(&["a", "b"], &["o1", "o2"], &["make"], false);
    let oracle = NaiveTriggerChecker::new();
    let mut ctx = oracle.new_task_context();
    let sources = vec![source(5), source(9)];
    assert!(!oracle.should_run(&t, &mut ctx, &sources, &vec![file(9, b""), file(10, b"")]).unwrap());
    assert!(oracle.should_run(&t, &mut ctx, &sources, &vec![file(9, b""), file(8, b"")]).unwrap());
}

#[test]
fn phony_task_runs_every_time() {
    let t = task(&[], &["stamp"], &["touch stamp"], true);
    let oracle = NaiveTriggerChecker::new();
    let mut ctx = oracle.new_task_context();
    assert!(oracle.should_run(&t, &mut ctx, &vec![], &vec![OutputProbe::Missing]).unwrap());
    let mut ctx = oracle.new_task_context();
    assert!(oracle.should_run(&t, &mut ctx, &vec![], &vec![file(10, b"")]).unwrap());
}

#[test]
fn task_without_outputs_always_runs() {
    let t = task(&["src"], &[], &[], false);
    let oracle = NaiveTriggerChecker::new();
    let mut ctx = oracle.new_task_context();
    // not even a missing source is looked at
    assert!(oracle.should_run(&t, &mut ctx, &vec![SourceProbe::Missing], &vec![]).unwrap());
}

#[test]
fn task_without_steps_never_runs() {
    let t = task(&["src"], &["out"], &[], true);
    let oracle = NaiveTriggerChecker::new();
    let mut ctx = oracle.new_task_context();
    assert!(!oracle.should_run(&t, &mut ctx, &vec![SourceProbe::Missing], &vec![OutputProbe::Missing]).unwrap());
    assert_eq!(ctx.len(), 0);
}

#[test]
fn missing_output_asks_for_a_run() {
    let t = task(&["src"], &["o1", "o2"], &["make"], false);
    let oracle = NaiveTriggerChecker::new();
    let mut ctx = oracle.new_task_context();
    assert!(oracle.should_run(&t, &mut ctx, &vec![source(1)], &vec![file(5, b"x"), OutputProbe::Missing]).unwrap());
    assert_eq!(ctx.len(), 1);
}

#[test]
fn without_sources_only_missing_outputs_ask_for_a_run() {
    let t = task(&[], &["o"], &["make"], false);
    let oracle = NaiveTriggerChecker::new();
    let mut ctx = oracle.new_task_context();
    assert!(!oracle.should_run(&t, &mut ctx, &vec![], &vec![file(0, b"")]).unwrap());
    assert!(oracle.newest_input_timestamp(&t, &vec![]).unwrap().is_none());
}

#[test]
fn newest_source_is_the_maximum() {
    let t = task(&["a", "b", "c"], &["o"], &["make"], false);
    let oracle = NaiveTriggerChecker::new();
    assert_eq!(oracle.newest_input_timestamp(&t, &vec![source(3), source(9), source(4)]).unwrap(), Some(9));
}

#[test]
fn missing_source_is_a_hard_error() {
    let t = task(&["a", "gone"], &["o"], &["make"], false);
    let oracle = NaiveTriggerChecker::new();
    let mut ctx = oracle.new_task_context();
    match oracle.should_run(&t, &mut ctx, &vec![source(1), SourceProbe::Missing], &vec![file(5, b"")]) {
        Err(RunError::SourceChangeCheckError(SourceChangeCheckError::InputTimestampError(
            InputTimestampError::SourceFileMissing(path),
        ))) => assert_eq!(path, "/w/gone"),
        other => panic!("unexpected {:?}", other),
    }
    match oracle.newest_input_timestamp(&t, &vec![SourceProbe::Unreadable("denied".to_string()), source(1)]) {
        Err(InputTimestampError::Unreadable(path, message)) => {
            assert_eq!(path, "/w/a");
            assert_eq!(message, "denied");
        }
        other => panic!("unexpected {:?}", other),
    }
}

#[test]
fn unreadable_or_unhashable_output_is_an_error() {
    let t = task(&[], &["o"], &["make"], false);
    let oracle = NaiveTriggerChecker::new();
    let mut ctx = oracle.new_task_context();
    match oracle.should_run(&t, &mut ctx, &vec![], &vec![OutputProbe::Unreadable("io".to_string())]) {
        Err(RunError::SourceChangeCheckError(SourceChangeCheckError::OutputTimestampError(path, m))) => {
            assert_eq!(path, "/w/o");
            assert_eq!(m, "io");
        }
        other => panic!("unexpected {:?}", other),
    }
    let unhashable = OutputProbe::Found {
        modified: 1,
        kind: FileKind::File,
        hash: Err(FileHashingError::ReadFailed("eof".to_string())),
    };
    match oracle.should_run(&t, &mut ctx, &vec![], &vec![unhashable]) {
        Err(RunError::SourceChangeCheckError(SourceChangeCheckError::InputFileHashingError(
            path,
            FileHashingError::ReadFailed(m),
        ))) => {
            assert_eq!(path, "/w/o");
            assert_eq!(m, "eof");
        }
        other => panic!("unexpected {:?}", other),
    }
    // the digest of a directory is not looked at
    let dir = OutputProbe::Found { modified: 1, kind: FileKind::Directory, hash: Err(FileHashingError::TryFromSliceError) };
    assert!(!oracle.should_run(&t, &mut ctx, &vec![], &vec![dir]).unwrap());
}

#[test]
fn check_outputs_needs_every_output() {
    let t = task(&["s"], &["o1", "o2"], &["make"], false);
    let mut oracle = NaiveTriggerChecker::new();
    let ctx = oracle.new_task_context();
    match oracle.check_outputs(&t, &ctx, true, &vec![source(1)], &vec![file(2, b""), OutputProbe::Missing]) {
        Err(OutputCheckError::OutputFileNotFound(path)) => assert_eq!(path, "/w/o2"),
        other => panic!("unexpected {:?}", other),
    }
}

#[test]
fn check_outputs_rejects_an_output_older_than_the_sources() {
    let t = task(&["s"], &["o"], &["make"], false);
    let mut oracle = NaiveTriggerChecker::new();
    let ctx = oracle.new_task_context();
    match oracle.check_outputs(&t, &ctx, true, &vec![source(10)], &vec![file(9, b"")]) {
        Err(OutputCheckError::OutputOlderThanSources(path)) => assert_eq!(path, "/w/o"),
        other => panic!("unexpected {:?}", other),
    }
    assert!(oracle.check_outputs(&t, &ctx, true, &vec![source(10)], &vec![file(10, b"")]).is_ok());
}

#[test]
fn regenerated_identical_output_counts_as_unchanged() {
    let producer = task(&["s"], &["gen.h"], &["gen"], false);
    let consumer = task(&["gen.h"], &["obj"], &["cc"], false);
    let mut oracle = NaiveTriggerChecker::new();

    // the producer has to run: its source is newer
    let mut ctx = oracle.new_task_context();
    assert!(oracle.should_run(&producer, &mut ctx, &vec![source(50)], &vec![file(10, b"same")]).unwrap());
    assert!(!oracle.is_unchanged("/w/gen.h"));
    // it runs and writes the same bytes again, with a new time
    oracle.check_outputs(&producer, &ctx, true, &vec![source(50)], &vec![file(60, b"same")]).unwrap();
    assert!(oracle.is_unchanged("/w/gen.h"));

    // the consumer passes over the unchanged source, although it is newer than its output
    let mut ctx = oracle.new_task_context();
    assert!(!oracle.should_run(&consumer, &mut ctx, &vec![source(60)], &vec![file(20, b"obj")]).unwrap());
}

#[test]
fn regenerated_different_output_counts_as_changed() {
    let producer = task(&["s"], &["gen.h"], &["gen"], false);
    let consumer = task(&["gen.h"], &["obj"], &["cc"], false);
    let mut oracle = NaiveTriggerChecker::new();
    let mut ctx = oracle.new_task_context();
    assert!(oracle.should_run(&producer, &mut ctx, &vec![source(50)], &vec![file(10, b"old")]).unwrap());
    oracle.check_outputs(&producer, &ctx, true, &vec![source(50)], &vec![file(60, b"new")]).unwrap();
    assert!(!oracle.is_unchanged("/w/gen.h"));
    let mut ctx = oracle.new_task_context();
    assert!(oracle.should_run(&consumer, &mut ctx, &vec![source(60)], &vec![file(20, b"obj")]).unwrap());
    // what is known as changed stays changed
    let mut ctx = oracle.new_task_context();
    oracle.should_run(&producer, &mut ctx, &vec![source(50)], &vec![file(60, b"new")]).unwrap();
    oracle.check_outputs(&producer, &ctx, false, &vec![source(50)], &vec![file(60, b"new")]).unwrap();
    assert!(!oracle.is_unchanged("/w/gen.h"));
}

#[test]
fn output_that_was_not_run_is_unchanged() {
    let t = task(&["s"], &["o"], &["make"], false);
    let mut oracle = NaiveTriggerChecker::new();
    let mut ctx = oracle.new_task_context();
    assert!(!oracle.should_run(&t, &mut ctx, &vec![source(1)], &vec![file(2, b"x")]).unwrap());
    oracle.check_outputs(&t, &ctx, false, &vec![source(1)], &vec![file(2, b"x")]).unwrap();
    assert!(oracle.is_unchanged("/w/o"));
}

#[test]
fn output_without_a_digest_on_record_is_first_seen_as_changed() {
    let t = task(&[], &["o"], &["make"], false);
    let mut oracle = NaiveTriggerChecker::new();
    let ctx = oracle.new_task_context();
    oracle.check_outputs(&t, &ctx, true, &vec![], &vec![file(2, b"x")]).unwrap();
    assert!(!oracle.is_unchanged("/w/o"));
}

#[test]
fn check_outputs_hashing_error_only_matters_after_a_run() {
    let t = task(&[], &["o"], &["make"], false);
    let mut oracle = NaiveTriggerChecker::new();
    let mut ctx = oracle.new_task_context();
    oracle.should_run(&t, &mut ctx, &vec![], &vec![file(2, b"x")]).unwrap();
    let broken = || OutputProbe::Found {
        modified: 3,
        kind: FileKind::File,
        hash: Err(FileHashingError::ReadError("gone".to_string())),
    };
    assert!(oracle.check_outputs(&t, &ctx, false, &vec![], &vec![broken()]).is_ok());
    let mut oracle = NaiveTriggerChecker::new();
    assert!(matches!(
        oracle.check_outputs(&t, &ctx, true, &vec![], &vec![broken()]),
        Err(OutputCheckError::SourceChangeCheckError(FileHashingError::ReadError(_)))
    ));
}
