use zero_shell::parse::parse_line;

fn words(v: &[&str]) -> Vec<String> {
    v.iter().map(|s| s.to_string()).collect()
}

#[test]
fn splits_on_spaces_and_tabs() {
    assert_eq!(parse_line("ls  -l\t/tmp").unwrap(), words(&["ls", "-l", "/tmp"]));
}

#[test]
fn blank_line_has_no_words() {
    assert_eq!(parse_line("   \t ").unwrap(), Vec::<String>::new());
    assert_eq!(parse_line("").unwrap(), Vec::<String>::new());
}

#[test]
fn double_quotes_group_words() {
    assert_eq!(
        parse_line("echo \"Hello World\" > test.txt").unwrap(),
        words(&["echo", "Hello World", ">", "test.txt"])
    );
}

#[test]
fn single_quotes_group_words() {
    assert_eq!(parse_line("cat 'my file'").unwrap(), words(&["cat", "my file"]));
}

#[test]
fn other_quote_is_literal_inside_quotes() {
    assert_eq!(parse_line("echo \"it's\"").unwrap(), words(&["echo", "it's"]));
    assert_eq!(parse_line("echo 'say \"hi\"'").unwrap(), words(&["echo", "say \"hi\""]));
}

#[test]
fn empty_quotes_give_empty_word() {
    assert_eq!(parse_line("a \"\" b").unwrap(), words(&["a", "", "b"]));
}

#[test]
fn closing_quote_ends_the_word() {
    assert_eq!(parse_line("a\"b c\"d").unwrap(), words(&["ab c", "d"]));
}

#[test]
fn unclosed_quote_is_an_error() {
    assert_eq!(parse_line("echo \"hello world'").unwrap_err(), "unclosed quote");
    assert_eq!(parse_line("echo 'x").unwrap_err(), "unclosed quote");
}

#[test]
fn join_roundtrip_on_concrete_words() {
    let ws = words(&["mkdir", "test_dir", "other"]);
    assert_eq!(parse_line(&ws.join(" ")).unwrap(), ws);
}

#[test]
fn leading_and_trailing_blanks_change_nothing() {
    assert_eq!(parse_line("  pwd  ").unwrap(), parse_line("pwd").unwrap());
}

#[test]
fn non_ascii_words() {
    assert_eq!(parse_line("echo héllo 'wörld x'").unwrap(), words(&["echo", "héllo", "wörld x"]));
}

#[test]
fn lines_joined_by_a_blank_concatenate() {
    let a = "ls -l";
    let b = "'my dir' x";
    let mut expected = parse_line(a).unwrap();
    expected.extend(parse_line(b).unwrap());
    assert_eq!(parse_line(&format!("{}\t{}", a, b)).unwrap(), expected);
    assert!(parse_line(&format!("{} {}", a, "\"open")).is_err());
}

#[test]
fn double_quoted_words_roundtrip() {
    let ws = words(&["", "a b", "it's", "\tx"]);
    let line = ws.iter().map(|t| format!("\"{}\"", t)).collect::<Vec<_>>().join(" ");
    assert_eq!(parse_line(&line).unwrap(), ws);
}
