use zero_shell::shell::{command_kind, interpret_line, same_text, trim, CommandKind, LineAction};

fn run(line: &str) -> (CommandKind, Vec<String>) {
    match interpret_line(line) {
        LineAction::Run { kind, words } => (kind, words),
        LineAction::Nothing => panic!("nothing to run"),
        LineAction::Invalid(e) => panic!("invalid: {}", e),
    }
}

#[test]
fn trims_white_space() {
    assert_eq!(trim("  ls -l \n"), "ls -l");
    assert_eq!(trim("\u{a0}x\u{3000}"), "x");
    assert_eq!(trim(" \t\r\n"), "");
}

#[test]
fn blank_lines_do_nothing() {
    assert!(matches!(interpret_line("\n"), LineAction::Nothing));
    assert!(matches!(interpret_line("   \n"), LineAction::Nothing));
    assert!(matches!(interpret_line("\"\u{a0}\n"), LineAction::Invalid(_)));
}

#[test]
fn commands_are_recognised() {
    assert_eq!(run("pwd\n").0, CommandKind::Pwd);
    assert_eq!(run("ls -la\n"), (CommandKind::Ls, vec!["ls".to_string(), "-la".to_string()]));
    assert_eq!(run("cd /tmp\n").0, CommandKind::Cd);
    assert_eq!(run("mkdir test_dir\n").0, CommandKind::Mkdir);
    assert_eq!(run("cat test.txt\n").0, CommandKind::Cat);
    assert_eq!(run("rm -r test_dir\n").0, CommandKind::Rm);
    assert_eq!(run("cp a b\n").0, CommandKind::Cp);
    assert_eq!(run("mv a b\n").0, CommandKind::Mv);
    assert_eq!(run("echo hi\n").0, CommandKind::Echo);
    assert_eq!(run("exit\n").0, CommandKind::Exit);
}

#[test]
fn unknown_commands() {
    let (k, w) = run("invalid_command\n");
    assert_eq!(k, CommandKind::Unknown);
    assert_eq!(w[0], "invalid_command");
    assert_eq!(command_kind("Exit"), CommandKind::Unknown);
}

#[test]
fn unclosed_quote_is_reported() {
    match interpret_line("echo \"hello world'\n") {
        LineAction::Invalid(e) => assert_eq!(e, "unclosed quote"),
        _ => panic!("expected an error"),
    }
}

#[test]
fn quoted_command_name() {
    assert_eq!(run("'ls' x\n").0, CommandKind::Ls);
}

#[test]
fn text_equality() {
    assert!(same_text("abc", "abc"));
    assert!(!same_text("abc", "abd"));
    assert!(!same_text("ab", "abc"));
}
