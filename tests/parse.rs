use rshell::{parse_input, Command, ShellError};

fn parse_ok(line: &str) -> Vec<Command> {
    match parse_input(line) {
        Ok(cmds) => cmds,
        Err(e) => panic!("{:?} failed to parse: {:?}", line, e),
    }
}

fn parse_err(line: &str) -> String {
    match parse_input(line) {
        Err(ShellError::ParseError(m)) => m,
        other => panic!("{:?} should be a parse error, got {:?}", line, other),
    }
}

#[test]
fn whitespace_only_lines_hold_no_command() {
    for line in ["", " ", "   \t  ", "\n", "\u{3000}\u{a0} "] {
        assert_eq!(parse_err(line), "no valid command found");
    }
}

#[test]
fn names_separated_by_pipes_give_one_stage_each() {
    let cmds = parse_ok("a | b | c");
    assert_eq!(cmds.len(), 3);
    for (c, name) in cmds.iter().zip(["a", "b", "c"]) {
        assert_eq!(c.program, name);
        assert!(c.args.is_empty());
    }
    let one = parse_ok("ls");
    assert_eq!(one.len(), 1);
    assert_eq!(one[0].program, "ls");
}

#[test]
fn double_quoted_pipe_and_space_stay_in_one_argument() {
    let cmds = parse_ok("echo \"a|b c\"");
    assert_eq!(cmds.len(), 1);
    assert_eq!(cmds[0].program, "echo");
    assert_eq!(cmds[0].args, vec!["a|b c".to_string()]);
}

#[test]
fn single_quoted_pipe_and_space_stay_in_one_argument() {
    let cmds = parse_ok("echo 'a|b c'");
    assert_eq!(cmds.len(), 1);
    assert_eq!(cmds[0].args, vec!["a|b c".to_string()]);
}

#[test]
fn doubled_pipe_is_a_parse_error() {
    assert_eq!(parse_err("cmd1 | | cmd2"), "pipe with no preceding command");
}

#[test]
fn unterminated_quote_is_a_parse_error() {
    assert_eq!(parse_err("echo 'unterminated"), "unclosed quote");
    assert_eq!(parse_err("echo \"a b"), "unclosed quote");
}

#[test]
fn leading_and_lone_pipes_are_parse_errors() {
    assert_eq!(parse_err("|"), "pipe with no preceding command");
    assert_eq!(parse_err("| ls"), "pipe with no preceding command");
}

#[test]
fn trailing_pipe_is_a_parse_error() {
    assert_eq!(parse_err("ls |"), "pipe with no following command");
    assert_eq!(parse_err("ls | "), "pipe with no following command");
}

#[test]
fn arguments_follow_the_program() {
    let cmds = parse_ok("  ls   -l\t/tmp  ");
    assert_eq!(cmds.len(), 1);
    assert_eq!(cmds[0].program, "ls");
    assert_eq!(cmds[0].args, vec!["-l".to_string(), "/tmp".to_string()]);
}

#[test]
fn pipe_without_spaces_splits_stages() {
    let cmds = parse_ok("ls|wc -l");
    assert_eq!(cmds.len(), 2);
    assert_eq!(cmds[0].program, "ls");
    assert!(cmds[0].args.is_empty());
    assert_eq!(cmds[1].program, "wc");
    assert_eq!(cmds[1].args, vec!["-l".to_string()]);
}

#[test]
fn only_the_matching_quote_closes() {
    let cmds = parse_ok("echo \"it's\" 'say \"hi\"'");
    assert_eq!(cmds[0].args, vec!["it's".to_string(), "say \"hi\"".to_string()]);
}

#[test]
fn quoted_regions_join_the_surrounding_word() {
    let cmds = parse_ok("a\"b c\"d");
    assert_eq!(cmds[0].program, "ab cd");
}

#[test]
fn empty_quoted_word_does_not_end_the_line() {
    let cmds = parse_ok("echo \"\" foo");
    assert_eq!(cmds.len(), 1);
    assert_eq!(cmds[0].program, "echo");
    assert_eq!(cmds[0].args, vec!["foo".to_string()]);
    let cmds = parse_ok("echo '' a '' b");
    assert_eq!(cmds[0].args, vec!["a".to_string(), "b".to_string()]);
}

#[test]
fn empty_quoted_words_alone_hold_no_argument() {
    let cmds = parse_ok("echo \"\" ''");
    assert_eq!(cmds.len(), 1);
    assert!(cmds[0].args.is_empty());
    assert_eq!(parse_err("\"\""), "no valid command found");
}

#[test]
fn empty_quoted_word_before_a_pipe_is_skipped() {
    let cmds = parse_ok("ls \"\" | wc");
    assert_eq!(cmds.len(), 2);
    assert!(cmds[0].args.is_empty());
    assert_eq!(cmds[1].program, "wc");
}

#[test]
fn non_ascii_stage_names_are_split_at_pipes() {
    let cmds = parse_ok("caf\u{e9} | \u{65e5}\u{672c} | x1");
    assert_eq!(cmds.len(), 3);
    assert_eq!(cmds[0].program, "caf\u{e9}");
    assert_eq!(cmds[1].program, "\u{65e5}\u{672c}");
    assert_eq!(cmds[2].program, "x1");
}

#[test]
fn unicode_whitespace_separates_words() {
    let cmds = parse_ok("echo\u{3000}x\u{2003}y");
    assert_eq!(cmds[0].args, vec!["x".to_string(), "y".to_string()]);
}
