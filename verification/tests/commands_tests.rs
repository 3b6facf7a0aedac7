use zero_shell::commands::{
    cat_paths, cd_target, echo, mkdir_paths, rm_action, rm_plan, transfer_destination,
    transfer_plan, usage_error_message, RmAction, UsageError,
};
use zero_shell::paths::{path_file_name, resolve_path};

#[test]
fn echo_joins_with_spaces() {
    assert_eq!(echo(&["Hello", "World"]), "Hello World");
}

#[test]
fn echo_without_arguments_prints_empty_line() {
    assert_eq!(echo(&[]), "");
}

#[test]
fn echo_strips_one_pair_of_matching_quotes() {
    assert_eq!(echo(&["\"hi\"", "'there'", "\"mixed'"]), "hi there \"mixed'");
    assert_eq!(echo(&["\"\"\"\""]), "\"\"");
    assert_eq!(echo(&["''"]), "");
}

#[test]
fn resolve_relative_and_absolute() {
    assert_eq!(resolve_path("/home/u", "docs"), "/home/u/docs");
    assert_eq!(resolve_path("/", "tmp"), "/tmp");
    assert_eq!(resolve_path("/home/u/", "a"), "/home/u/a");
    assert_eq!(resolve_path("/home/u", "/etc"), "/etc");
    assert_eq!(resolve_path("", "x"), "x");
    assert_eq!(resolve_path("/a", ""), "/a/");
}

#[test]
fn cd_goes_home_or_to_argument() {
    assert_eq!(cd_target(&[], "/tmp", Some("/home/u")), "/home/u");
    assert_eq!(cd_target(&[], "/tmp", None), "/");
    assert_eq!(cd_target(&[".."], "/tmp", Some("/home/u")), "/tmp/..");
    assert_eq!(cd_target(&["/var", "x"], "/tmp", None), "/var");
}

#[test]
fn file_names_of_paths() {
    assert_eq!(path_file_name("/a/b.txt"), Some("b.txt".to_string()));
    assert_eq!(path_file_name("/a/b/"), Some("b".to_string()));
    assert_eq!(path_file_name("/a/b/."), Some("b".to_string()));
    assert_eq!(path_file_name("/a/.."), None);
    assert_eq!(path_file_name("/"), None);
    assert_eq!(path_file_name(""), None);
    assert_eq!(path_file_name("x"), Some("x".to_string()));
}

#[test]
fn mkdir_needs_an_operand() {
    assert_eq!(mkdir_paths(&[], "/t").unwrap_err(), UsageError::MissingOperand);
    assert_eq!(mkdir_paths(&["a", "/b"], "/t").unwrap(), vec!["/t/a".to_string(), "/b".to_string()]);
}

#[test]
fn cat_resolves_each_file() {
    assert_eq!(cat_paths(&["a.txt", "/etc/hosts"], "/home"), vec!["/home/a.txt".to_string(), "/etc/hosts".to_string()]);
}

#[test]
fn rm_options_and_paths() {
    assert_eq!(rm_plan(&[], "/t").unwrap_err(), UsageError::MissingOperand);
    let p = rm_plan(&["-r", "test_dir"], "/tmp").unwrap();
    assert!(p.recursive);
    assert_eq!(p.paths, vec!["/tmp/test_dir".to_string()]);
    let p = rm_plan(&["-f", "a", "-r"], "/tmp").unwrap();
    assert!(!p.recursive);
    assert_eq!(p.paths, vec!["/tmp/a".to_string(), "/tmp/-r".to_string()]);
    let p = rm_plan(&["-fR"], "/tmp").unwrap();
    assert!(p.recursive);
    assert!(p.paths.is_empty());
}

#[test]
fn rm_refuses_directories_without_recursion() {
    assert_eq!(rm_action(true, false), RmAction::RefuseDirectory);
    assert_eq!(rm_action(true, true), RmAction::RemoveTree);
    assert_eq!(rm_action(false, true), RmAction::RemoveFile);
    assert_eq!(rm_action(false, false), RmAction::RemoveFile);
}

#[test]
fn cp_needs_source_and_destination() {
    assert_eq!(transfer_destination(&["a"], "/t").unwrap_err(), UsageError::MissingFileOperand);
    assert_eq!(transfer_destination(&["a", "b"], "/t").unwrap(), "/t/b");
    assert_eq!(transfer_plan(&["a"], "/t", true).err(), Some(UsageError::MissingFileOperand));
}

#[test]
fn cp_into_directory_keeps_names() {
    let plan = transfer_plan(&["x/a.txt", "/abs/b", "dir"], "/t", true).unwrap();
    assert_eq!(plan.len(), 2);
    assert_eq!(plan[0].source, "/t/x/a.txt");
    assert_eq!(plan[0].dest, "/t/dir/a.txt");
    assert_eq!(plan[1].source, "/abs/b");
    assert_eq!(plan[1].dest, "/t/dir/b");
}

#[test]
fn cp_of_root_into_directory_uses_written_source() {
    let plan = transfer_plan(&["/", "d"], "/t", true).unwrap();
    assert_eq!(plan[0].dest, "/");
}

#[test]
fn cp_to_file_destination() {
    let plan = transfer_plan(&["a", "b"], "/t", false).unwrap();
    assert_eq!(plan[0].source, "/t/a");
    assert_eq!(plan[0].dest, "/t/b");
}

#[test]
fn several_sources_need_a_directory() {
    let e = transfer_plan(&["a", "b", "c"], "/t", false).unwrap_err();
    assert_eq!(e, UsageError::NotADirectory("c".to_string()));
    assert_eq!(usage_error_message("mv", &e), "mv: target 'c' is not a directory");
}

#[test]
fn usage_messages() {
    assert_eq!(usage_error_message("rm", &UsageError::MissingOperand), "rm: missing operand");
    assert_eq!(usage_error_message("cp", &UsageError::MissingFileOperand), "cp: missing file operand");
    assert_eq!(usage_error_message("mkdir", &UsageError::MissingOperand), "mkdir: missing operand");
}
