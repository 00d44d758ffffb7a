use birb_task::cli::threads_config::{NamedThreadConfig, ThreadsConfig};
use birb_task::cli::value_parser::CustomValueParser;
use birb_task::cli::{exit_code, first_paragraph, task_short, usage, CliRunOptions, RunMode};
use birb_task::task::params::Param;
use birb_task::task::task::Task;
use birb_task::run::execution::TaskExecutionError;
use birb_task::run::RunError;
use birb_task::signal_manager::Signal;
use birb_task::run::default_run_manager::DefaultRunManager;
use birb_task::run::parallel_run_manager::ParallelRunManager;
use birb_task::task::params::ArgType;
use birb_task::text::{ends_with, find_char, find_text, join_texts, matches_at, slice, starts_with, text_eq};

#[test]
fn threads_are_named_or_counted() {
    assert_eq!(ThreadsConfig::parse("cpu"), Some(ThreadsConfig::Named(NamedThreadConfig::Cpu)));
    assert_eq!(ThreadsConfig::parse("physical"), Some(ThreadsConfig::Named(NamedThreadConfig::Physical)));
    assert_eq!(ThreadsConfig::parse("1"), Some(ThreadsConfig::Num(1)));
    assert_eq!(ThreadsConfig::parse("16"), Some(ThreadsConfig::Num(16)));
    assert_eq!(ThreadsConfig::parse("18446744073709551615"), Some(ThreadsConfig::Num(u64::MAX)));
    // zero is invalid
    assert_eq!(ThreadsConfig::parse("0"), None);
    assert_eq!(ThreadsConfig::parse("18446744073709551616"), None);
    assert_eq!(ThreadsConfig::parse("-1"), None);
    assert_eq!(ThreadsConfig::parse("CPU"), None);
    assert_eq!(ThreadsConfig::parse(""), None);
    assert_eq!(ThreadsConfig::parse("four"), None);
    assert_eq!(ThreadsConfig::parse(" 4"), None);
}

#[test]
fn threads_on_a_machine() {
    assert_eq!(ThreadsConfig::Named(NamedThreadConfig::Cpu).resolve(8, 4), 8);
    assert_eq!(ThreadsConfig::Named(NamedThreadConfig::Physical).resolve(8, 4), 4);
    assert_eq!(ThreadsConfig::Num(3).resolve(8, 4), 3);
    assert_eq!(ThreadsConfig::Num(3).get_num_threads(), 3);
    assert!(ThreadsConfig::Named(NamedThreadConfig::Cpu).get_num_threads() >= 1);
    assert!(ThreadsConfig::Named(NamedThreadConfig::Physical).get_num_threads() >= 1);
    let _parser: CustomValueParser<ThreadsConfig> = ThreadsConfig::value_parser();
    let _other: CustomValueParser<u8> = CustomValueParser::new();
}

#[test]
fn absence_of_threads_selects_the_sequential_mode() {
    assert_eq!(CliRunOptions { compact: false, threads: None }.mode(), RunMode::Sequential);
    assert_eq!(
        CliRunOptions { compact: true, threads: Some(ThreadsConfig::Num(2)) }.mode(),
        RunMode::Parallel(ThreadsConfig::Num(2))
    );
}

#[test]
fn exit_codes() {
    assert_eq!(exit_code(&Ok(())), 0);
    assert_eq!(exit_code(&Err(RunError::Interrupted)), 130);
    assert_eq!(exit_code(&Err(RunError::BeginTaskError("x".to_string()))), 1);
    assert_eq!(exit_code(&Err(RunError::ExecutionError(TaskExecutionError::TaskNotFound(0)))), 1);
    assert_eq!(Signal::Interrupt.exit_code(), 130);
    assert_eq!(Signal::Terminate.exit_code(), 143);
    assert_eq!(Signal::Interrupt.grace_millis(), 500);
    assert_eq!(Signal::Terminate.grace_millis(), 1000);
}

#[test]
fn title_sequence_is_taken_out_of_a_line() {
    let line = ParallelRunManager::split_title("before\u{1b}]0;my title\u{7}after");
    assert_eq!(line.before, "before");
    assert_eq!(line.title.as_deref(), Some("my title"));
    assert_eq!(line.after, "after");
    let line = ParallelRunManager::split_title("\u{1b}]0;\u{7}");
    assert_eq!((line.before.as_str(), line.title.as_deref(), line.after.as_str()), ("", Some(""), ""));
    // only the first sequence is taken out
    let line = ParallelRunManager::split_title("a\u{1b}]0;t\u{7}b\u{1b}]0;u\u{7}c");
    assert_eq!(line.title.as_deref(), Some("t"));
    assert_eq!(line.after, "b\u{1b}]0;u\u{7}c");
    // a bell before the sequence does not close it
    let line = ParallelRunManager::split_title("x\u{7}y\u{1b}]0;t");
    assert_eq!((line.before.as_str(), line.title.as_deref(), line.after.as_str()), ("x\u{7}y\u{1b}]0;t", None, ""));
    let line = ParallelRunManager::split_title("plain");
    assert_eq!((line.before.as_str(), line.title.as_deref(), line.after.as_str()), ("plain", None, ""));
    let line = ParallelRunManager::split_title("");
    assert!(line.title.is_none());
}

#[test]
fn colours_go_round() {
    assert_eq!(ParallelRunManager::color_index(0), 0);
    assert_eq!(ParallelRunManager::color_index(7), 7);
    assert_eq!(ParallelRunManager::color_index(8), 0);
    assert_eq!(ParallelRunManager::color_index(21), 5);
}

#[test]
fn compact_runs_do_not_announce_tasks() {
    let loud = CliRunOptions { compact: false, threads: None };
    let quiet = CliRunOptions { compact: true, threads: None };
    assert!(DefaultRunManager(loud).announces_tasks());
    assert!(!DefaultRunManager(quiet).announces_tasks());
    assert!(ParallelRunManager(loud).announces_tasks());
    assert!(!ParallelRunManager(quiet).announces_tasks());
}

#[test]
fn types_as_they_are_written() {
    assert_eq!(ArgType::String.to_text(), "string");
    assert_eq!(ArgType::Number.to_text(), "number");
    assert_eq!(ArgType::Boolean.to_text(), "boolean");
    assert_eq!(ArgType::Path.to_text(), "path");
    assert_eq!(ArgType::Select(vec![]).to_text(), "opt()");
    assert_eq!(ArgType::Select(vec!["a".to_string()]).to_text(), "opt(a)");
    assert_eq!(ArgType::Select(vec!["a".to_string(), "b".to_string(), "c".to_string()]).to_text(), "opt(a, b, c)");
    assert_eq!(ArgType::Array(Box::new(ArgType::Array(Box::new(ArgType::Path)))).to_text(), "array<array<path>>");
}

#[test]
fn texts_by_characters() {
    assert!(text_eq("", ""));
    assert!(text_eq("añb", "añb"));
    assert!(!text_eq("a", "b"));
    assert!(!text_eq("a", "ab"));
    assert!(starts_with("hello", "he"));
    assert!(starts_with("hello", ""));
    assert!(!starts_with("he", "hello"));
    assert!(ends_with("hello", "llo"));
    assert!(!ends_with("hello", "hell"));
    assert!(ends_with("dir/", "/"));
    assert!(matches_at("abcabc", "bc", 4));
    assert!(!matches_at("abcabc", "bc", 5));
    assert!(matches_at("abc", "", 3));
    assert!(!matches_at("abc", "", 4));
    assert_eq!(find_char("a:b:c", ':'), Some(1));
    assert_eq!(find_char("ü:b", ':'), Some(1));
    assert_eq!(find_char("abc", ':'), None);
    assert_eq!(find_text("xx{{y", "{{"), Some(2));
    assert_eq!(find_text("abc", ""), Some(0));
    assert_eq!(find_text("", ""), Some(0));
    assert_eq!(find_text("abc", "cd"), None);
    assert_eq!(find_text("abc", "c"), Some(2));
    assert_eq!(slice("héllo", 1, 3), "él");
    assert_eq!(birb_task::text::concat("a", "b"), "ab");
    assert_eq!(join_texts(&vec![], ", "), "");
    assert_eq!(join_texts(&vec!["a".to_string(), "".to_string(), "c".to_string()], "-"), "a--c");
}

fn described(text: &str) -> Task {
    let mut task = Task::new("t");
    task.description = Some(text.to_string());
    task
}

#[test]
fn short_description_is_the_first_paragraph_in_one_line() {
    assert_eq!(task_short(&Task::new("t")), None);
    assert_eq!(task_short(&described("Build it.")), Some("Build it.".to_string()));
    assert_eq!(
        task_short(&described("  Build the site  \n\tand the feed.\n\nNeeds a network.\n")),
        Some("Build the site and the feed.".to_string())
    );
    assert_eq!(task_short(&described("one\r\ntwo\r\n   \r\nthree")), Some("one two".to_string()));
    assert_eq!(task_short(&described("\nlate")), Some(String::new()));
    assert_eq!(task_short(&described("")), Some(String::new()));
    assert_eq!(task_short(&described("last line\n")), Some("last line".to_string()));
}

#[test]
fn paragraph_ends_at_the_first_blank_line() {
    assert_eq!(first_paragraph("a\n b \n\nc"), vec!["a".to_string(), "b".to_string()]);
    assert_eq!(first_paragraph("   \na"), Vec::<String>::new());
    assert_eq!(first_paragraph("a"), vec!["a".to_string()]);
}

#[test]
fn usage_names_each_parameter_in_order() {
    let mut task = Task::new("t");
    assert_eq!(usage(&task), "");
    task.params.0.insert("target".to_string(), Param { ty: ArgType::String, default: None });
    assert_eq!(usage(&task), "<target>");
    task.params.0.insert("jobs".to_string(), Param { ty: ArgType::Number, default: None });
    assert_eq!(usage(&task), "<target> <jobs>");
}

#[test]
fn a_count_is_digits_with_at_most_a_plus_sign() {
    assert_eq!(ThreadsConfig::parse("+5"), Some(ThreadsConfig::Num(5)));
    assert_eq!(ThreadsConfig::parse("007"), Some(ThreadsConfig::Num(7)));
    assert_eq!(ThreadsConfig::parse("+"), None);
    assert_eq!(ThreadsConfig::parse("++5"), None);
    assert_eq!(ThreadsConfig::parse("+-5"), None);
    assert_eq!(ThreadsConfig::parse("-0"), None);
    assert_eq!(ThreadsConfig::parse("5+"), None);
    assert_eq!(ThreadsConfig::parse("1_000"), None);
    assert_eq!(ThreadsConfig::parse("4 "), None);
    assert_eq!(ThreadsConfig::parse("٤"), None);
    assert_eq!(ThreadsConfig::parse("000"), None);
    assert_eq!(ThreadsConfig::parse("+018446744073709551615"), Some(ThreadsConfig::Num(u64::MAX)));
}
