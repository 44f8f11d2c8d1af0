use rshell::command::{builtin_of, decimal_text, echo_text, pwd_text, Action, Builtin, Event, Phase, Pipeline};
use rshell::{Command, ShellError};

fn cmd(program: &str, args: &[&str]) -> Command {
    Command { program: program.to_string(), args: args.iter().map(|a| a.to_string()).collect() }
}

fn expect_spawn(a: Action, stage: usize, from_prev: bool, piped: bool) {
    match a {
        Action::Spawn { stage: s, stdin_from_previous, stdout_piped } => {
            assert_eq!(s, stage);
            assert_eq!(stdin_from_previous, from_prev);
            assert_eq!(stdout_piped, piped);
        }
        other => panic!("expected a spawn, got {:?}", describe(&other)),
    }
}

fn expect_wait(a: Action, stage: usize) {
    match a {
        Action::Wait { stage: s } => assert_eq!(s, stage),
        other => panic!("expected a wait, got {:?}", describe(&other)),
    }
}

fn expect_ok(a: Action) {
    match a {
        Action::Finish(Ok(())) => {}
        other => panic!("expected success, got {:?}", describe(&other)),
    }
}

fn expect_command_error(a: Action) -> String {
    match a {
        Action::Finish(Err(ShellError::CommandError(m))) => m,
        other => panic!("expected a command error, got {:?}", describe(&other)),
    }
}

fn describe(a: &Action) -> String {
    match a {
        Action::Print(s) => format!("print {:?}", s),
        Action::ChangeDir(s) => format!("cd {:?}", s),
        Action::QueryDir => "query".to_string(),
        Action::Spawn { stage, .. } => format!("spawn {}", stage),
        Action::Wait { stage } => format!("wait {}", stage),
        Action::Finish(r) => format!("finish {:?}", r),
    }
}

fn exited(success: bool, code: Option<i32>) -> Event {
    Event::Exited { success, code }
}

#[test]
fn echo_prints_words_joined_by_spaces() {
    let mut p = Pipeline::new(vec![cmd("echo", &["a", "b"])], None);
    match p.start() {
        Action::Print(s) => assert_eq!(s, "a b\n"),
        other => panic!("{}", describe(&other)),
    }
    assert_eq!(p.phase(), Phase::Printing);
    expect_ok(p.advance(Event::Done));
    assert_eq!(p.phase(), Phase::Finished);
}

#[test]
fn echo_text_of_no_words_is_a_newline() {
    assert_eq!(echo_text(&vec![]), "\n");
    assert_eq!(echo_text(&vec!["x".to_string()]), "x\n");
    assert_eq!(echo_text(&vec!["a".to_string(), "".to_string(), "c".to_string()]), "a  c\n");
}

#[test]
fn pwd_prints_the_directory_and_one_newline() {
    let mut p = Pipeline::new(vec![cmd("pwd", &[])], None);
    assert!(matches!(p.start(), Action::QueryDir));
    match p.advance(Event::Dir("/home/me".to_string())) {
        Action::Print(s) => assert_eq!(s, "/home/me\n"),
        other => panic!("{}", describe(&other)),
    }
    expect_ok(p.advance(Event::Done));
    assert_eq!(pwd_text("/"), "/\n");
}

#[test]
fn cd_goes_to_its_argument() {
    let mut p = Pipeline::new(vec![cmd("cd", &["/tmp"])], Some("/home/me".to_string()));
    match p.start() {
        Action::ChangeDir(d) => assert_eq!(d, "/tmp"),
        other => panic!("{}", describe(&other)),
    }
    expect_ok(p.advance(Event::Done));
}

#[test]
fn bare_cd_goes_home() {
    let mut p = Pipeline::new(vec![cmd("cd", &[])], Some("/home/me".to_string()));
    match p.start() {
        Action::ChangeDir(d) => assert_eq!(d, "/home/me"),
        other => panic!("{}", describe(&other)),
    }
}

#[test]
fn bare_cd_without_home_fails() {
    let mut p = Pipeline::new(vec![cmd("cd", &[])], None);
    assert_eq!(expect_command_error(p.start()), "cannot determine the HOME directory");
}

#[test]
fn cd_to_a_missing_directory_reports_the_io_error() {
    let mut p = Pipeline::new(vec![cmd("cd", &["/nonexistent-path"])], None);
    match p.start() {
        Action::ChangeDir(d) => assert_eq!(d, "/nonexistent-path"),
        other => panic!("{}", describe(&other)),
    }
    let e = std::io::Error::new(std::io::ErrorKind::NotFound, "no such directory");
    match p.advance(Event::Failed(e)) {
        Action::Finish(Err(ShellError::Io(e))) => assert_eq!(e.kind(), std::io::ErrorKind::NotFound),
        other => panic!("{}", describe(&other)),
    }
}

#[test]
fn piped_cd_fails_before_anything_runs() {
    let mut p = Pipeline::new(vec![cmd("cd", &["/tmp"]), cmd("cat", &[])], None);
    assert_eq!(expect_command_error(p.start()), "built-in commands do not support piping");
    let mut q = Pipeline::new(vec![cmd("ls", &[]), cmd("wc", &[]), cmd("echo", &["x"])], None);
    assert_eq!(expect_command_error(q.start()), "built-in commands do not support piping");
}

#[test]
fn three_stages_are_wired_and_waited_in_order() {
    let mut p = Pipeline::new(vec![cmd("ls", &[]), cmd("grep", &["a"]), cmd("wc", &["-l"])], None);
    expect_spawn(p.start(), 0, false, true);
    expect_spawn(p.advance(Event::Done), 1, true, true);
    expect_spawn(p.advance(Event::Done), 2, true, false);
    expect_wait(p.advance(Event::Done), 2);
    expect_wait(p.advance(exited(true, Some(0))), 0);
    expect_wait(p.advance(exited(true, Some(0))), 1);
    expect_ok(p.advance(exited(true, Some(0))));
}

#[test]
fn lone_external_program_uses_the_shell_streams() {
    let mut p = Pipeline::new(vec![cmd("ls", &["-l"])], None);
    expect_spawn(p.start(), 0, false, false);
    expect_wait(p.advance(Event::Done), 0);
    expect_ok(p.advance(exited(true, Some(0))));
}

#[test]
fn missing_last_program_fails_with_a_command_error() {
    let mut p = Pipeline::new(vec![cmd("yes", &[]), cmd("no-such-program", &[])], None);
    expect_spawn(p.start(), 0, false, true);
    expect_spawn(p.advance(Event::Done), 1, true, false);
    let m = expect_command_error(
        p.advance(Event::SpawnFailed("No such file or directory (os error 2)".to_string())),
    );
    assert_eq!(m, "cannot run 'no-such-program': No such file or directory (os error 2)");
    assert_eq!(p.phase(), Phase::Finished);
}

#[test]
fn nonzero_exit_names_program_and_code() {
    let mut p = Pipeline::new(vec![cmd("false", &[])], None);
    expect_spawn(p.start(), 0, false, false);
    expect_wait(p.advance(Event::Done), 0);
    assert_eq!(expect_command_error(p.advance(exited(false, Some(3)))), "command 'false' exited with status 3");
}

#[test]
fn exit_by_signal_reports_minus_one() {
    let mut p = Pipeline::new(vec![cmd("a", &[]), cmd("b", &[])], None);
    expect_spawn(p.start(), 0, false, true);
    expect_spawn(p.advance(Event::Done), 1, true, false);
    expect_wait(p.advance(Event::Done), 1);
    assert_eq!(expect_command_error(p.advance(exited(false, None))), "command 'b' exited with status -1");
}

#[test]
fn failed_earlier_stage_is_reported_after_the_last() {
    let mut p = Pipeline::new(vec![cmd("a", &[]), cmd("b", &[]), cmd("c", &[])], None);
    expect_spawn(p.start(), 0, false, true);
    expect_spawn(p.advance(Event::Done), 1, true, true);
    expect_spawn(p.advance(Event::Done), 2, true, false);
    expect_wait(p.advance(Event::Done), 2);
    expect_wait(p.advance(exited(true, Some(0))), 0);
    assert_eq!(expect_command_error(p.advance(exited(false, Some(1)))), "a command in the pipeline failed");
}

#[test]
fn an_event_out_of_place_ends_the_pipeline() {
    let mut p = Pipeline::new(vec![cmd("echo", &[])], None);
    assert_eq!(expect_command_error(p.advance(Event::Done)), "unexpected event for this step");
}

#[test]
fn empty_pipeline_succeeds_at_once() {
    let mut p = Pipeline::new(vec![], None);
    expect_ok(p.start());
}

#[test]
fn builtins_are_recognised_by_name() {
    assert_eq!(builtin_of(&"cd".to_string()), Some(Builtin::Cd));
    assert_eq!(builtin_of(&"pwd".to_string()), Some(Builtin::Pwd));
    assert_eq!(builtin_of(&"echo".to_string()), Some(Builtin::Echo));
    assert_eq!(builtin_of(&"ls".to_string()), None);
    assert_eq!(builtin_of(&"cdx".to_string()), None);
}

#[test]
fn decimal_text_writes_integers() {
    assert_eq!(decimal_text(0), "0");
    assert_eq!(decimal_text(42), "42");
    assert_eq!(decimal_text(-7), "-7");
    assert_eq!(decimal_text(i32::MAX), "2147483647");
    assert_eq!(decimal_text(i32::MIN), "-2147483648");
}

#[test]
fn io_errors_convert_to_the_io_variant() {
    let e: ShellError = std::io::Error::new(std::io::ErrorKind::PermissionDenied, "denied").into();
    assert!(matches!(e, ShellError::Io(ref inner) if inner.kind() == std::io::ErrorKind::PermissionDenied));
}

#[test]
fn whole_run_with_a_missing_last_program_starts_the_others_and_waits_for_none() {
    let mut p = Pipeline::new(
        vec![cmd("yes", &[]), cmd("head", &["-n", "1"]), cmd("no-such-program", &[])],
        None,
    );
    expect_spawn(p.start(), 0, false, true);
    expect_spawn(p.advance(Event::Done), 1, true, true);
    expect_spawn(p.advance(Event::Done), 2, true, false);
    let m = expect_command_error(p.advance(Event::SpawnFailed("not found".to_string())));
    assert_eq!(m, "cannot run 'no-such-program': not found");
    assert_eq!(p.phase(), Phase::Finished);
}
