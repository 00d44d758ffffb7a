use birb_task::command::Command;
use birb_task::run::execution::naive::{
    interpreter_plan, plan_shell, sh_plan, strip_shebangs, take_first_line, NaiveExecutor,
};

#[test]
fn plain_script_runs_under_sh() {
    let plan = plan_shell("echo hello\necho world").unwrap();
    assert_eq!(plan.program, "sh");
    assert_eq!(plan.args, vec!["-c", "echo hello\necho world"]);
    assert!(plan.script.is_none());
}

#[test]
fn empty_script_runs_under_sh() {
    let plan = plan_shell("").unwrap();
    assert_eq!(plan.program, "sh");
    assert_eq!(plan.args, vec!["-c", ""]);
}

#[test]
fn shebang_recipe_runs_under_its_interpreter() {
    let script = "#!/usr/bin/env python3\nprint('hi')\n";
    let plan = plan_shell(script).unwrap();
    assert_eq!(plan.program, "/usr/bin/env");
    assert_eq!(plan.args, vec!["python3"]);
    // the whole script goes into the file that the interpreter reads
    assert_eq!(plan.script.as_deref(), Some(script));
}

#[test]
fn shebang_is_split_like_a_shell_line() {
    let plan = plan_shell("#!  /bin/my\\ sh -x 'a b' \"c d\"  \r\nbody").unwrap();
    assert_eq!(plan.program, "/bin/my sh");
    assert_eq!(plan.args, vec!["-x", "a b", "c d"]);
}

#[test]
fn shebang_only_counts_in_the_first_line() {
    let plan = plan_shell("echo x\n#!/bin/bash\n").unwrap();
    assert_eq!(plan.program, "sh");
    let plan = plan_shell(" #!/bin/bash\n").unwrap();
    assert_eq!(plan.program, "sh");
}

#[test]
fn shebang_without_interpreter_has_no_plan() {
    assert!(plan_shell("#!\necho").is_none());
    assert!(plan_shell("#!   ").is_none());
    // an open quotation cannot be split
    assert!(plan_shell("#!/bin/sh 'open\n").is_none());
}

#[test]
fn repeated_shebangs_are_all_cut_off() {
    assert_eq!(strip_shebangs("#!#!/bin/sh"), "/bin/sh");
    assert_eq!(strip_shebangs("#!"), "");
    assert_eq!(strip_shebangs("#"), "#");
    assert_eq!(strip_shebangs("x#!"), "x#!");
    assert_eq!(strip_shebangs(""), "");
    let plan = plan_shell("#!#!/bin/sh -e").unwrap();
    assert_eq!(plan.program, "/bin/sh");
    assert_eq!(plan.args, vec!["-e"]);
}

#[test]
fn first_line_ends_at_the_first_line_feed() {
    assert_eq!(take_first_line("a\nb\nc"), "a");
    assert_eq!(take_first_line("abc"), "abc");
    assert_eq!(take_first_line("\nabc"), "");
    assert_eq!(take_first_line(""), "");
    assert_eq!(take_first_line("é\nü"), "é");
}

#[test]
fn plans_by_hand() {
    let plan = interpreter_plan(vec!["perl".to_string(), "-w".to_string()], "#!perl -w\nprint 1;");
    assert_eq!(plan.program, "perl");
    assert_eq!(plan.args, vec!["-w"]);
    assert_eq!(plan.script.as_deref(), Some("#!perl -w\nprint 1;"));
    let plan = sh_plan("true");
    assert_eq!((plan.program.as_str(), plan.args.len()), ("sh", 2));
}

#[test]
fn recipe_is_planned_step_by_step() {
    let steps = vec![Command::Shell("echo 1".to_string()), Command::Shell("#!/bin/bash\necho 2".to_string())];
    let plans = NaiveExecutor::plan(&steps).unwrap();
    assert_eq!(plans.len(), 2);
    assert_eq!(plans[0].program, "sh");
    assert_eq!(plans[1].program, "/bin/bash");
    let steps = vec![Command::Shell("echo 1".to_string()), Command::Shell("#!\n".to_string())];
    assert!(NaiveExecutor::plan(&steps).is_none());
    assert_eq!(NaiveExecutor::plan(&vec![]).unwrap().len(), 0);
}
