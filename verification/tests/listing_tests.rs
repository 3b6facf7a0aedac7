use zero_shell::format::{
    civil_from_secs, decimal_string, file_size_blocks, format_permissions, is_executable,
    is_leap_year, padded,
};
use zero_shell::listing::{
    date_string, long_line_string, ls_can_render, ls_output, ls_target, parse_ls_args, EntryInfo,
    FileMeta,
};
use zero_shell::order::{chars_of, listing_order_of, name_less};

fn bytes(s: &str) -> Vec<u8> {
    s.as_bytes().to_vec()
}

fn file(name: &str, mode: u32, size: u64) -> EntryInfo {
    EntryInfo {
        name: name.to_string(),
        name_bytes: name.as_bytes().to_vec(),
        meta: Some(FileMeta { is_dir: false, mode, nlink: 1, uid: 1000, gid: 1000, size, modified: Some(1700000000) }),
    }
}

fn dir(name: &str) -> EntryInfo {
    EntryInfo {
        name: name.to_string(),
        name_bytes: name.as_bytes().to_vec(),
        meta: Some(FileMeta { is_dir: true, mode: 0o40755, nlink: 2, uid: 0, gid: 0, size: 4096, modified: None }),
    }
}

#[test]
fn permissions_strings() {
    assert_eq!(format_permissions(0o755, true), "drwxr-xr-x");
    assert_eq!(format_permissions(0o100644, false), "-rw-r--r--");
    assert_eq!(format_permissions(0o000, false), "----------");
    assert_eq!(format_permissions(0o777, false), "-rwxrwxrwx");
}

#[test]
fn leap_years() {
    assert!(is_leap_year(2000));
    assert!(is_leap_year(2024));
    assert!(!is_leap_year(1900));
    assert!(!is_leap_year(2023));
}

#[test]
fn blocks_round_up() {
    assert_eq!(file_size_blocks(0), 0);
    assert_eq!(file_size_blocks(1), 1);
    assert_eq!(file_size_blocks(512), 1);
    assert_eq!(file_size_blocks(513), 2);
}

#[test]
fn executable_bits() {
    assert!(is_executable(0o100), "owner x");
    assert!(is_executable(0o001));
    assert!(!is_executable(0o644));
}

#[test]
fn decimal_and_padding() {
    assert_eq!(decimal_string(0), "0");
    assert_eq!(decimal_string(18446744073709551615), "18446744073709551615");
    assert_eq!(padded("7", 3, ' '), "  7");
    assert_eq!(padded("5", 2, '0'), "05");
    assert_eq!(padded("123456", 3, ' '), "123456");
}

#[test]
fn calendar_dates() {
    let t = civil_from_secs(0);
    assert_eq!((t.year, t.month, t.day, t.hour, t.minute, t.second), (1970, 0, 1, 0, 0, 0));
    let t = civil_from_secs(951782400);
    assert_eq!((t.year, t.month, t.day), (2000, 1, 29));
    let t = civil_from_secs(1700000000);
    assert_eq!((t.year, t.month, t.day, t.hour, t.minute, t.second), (2023, 10, 14, 22, 13, 20));
    let t = civil_from_secs(1704067199);
    assert_eq!((t.year, t.month, t.day, t.hour, t.minute, t.second), (2023, 11, 31, 23, 59, 59));
}

#[test]
fn date_column() {
    assert_eq!(date_string(1700000000), "Nov 14 22:13:20 ");
    assert_eq!(date_string(0), "Jan  1 00:00:00 ");
}

#[test]
fn long_line_format() {
    let e = file("run.sh", 0o100755, 1234);
    let m = e.meta.as_ref().unwrap();
    assert_eq!(long_line_string(&e.name, m, true), "-rwxr-xr-x   1  1000  1000     1234 Nov 14 22:13:20 run.sh*\n");
    assert_eq!(long_line_string(&e.name, m, false), "-rwxr-xr-x   1  1000  1000     1234 Nov 14 22:13:20 run.sh\n");
}

#[test]
fn ls_flags() {
    let o = parse_ls_args(&["-la", "-F", "/tmp", "-x"]);
    assert!(o.long && o.all && o.classify);
    assert_eq!(o.path_index, Some(2));
    let o = parse_ls_args(&[]);
    assert!(!o.long && !o.all && !o.classify);
    assert_eq!(o.path_index, None);
    let o = parse_ls_args(&["--all"]);
    assert!(o.long && o.all && !o.classify);
}

#[test]
fn ls_directory() {
    assert_eq!(ls_target(&["-l"], "/home"), "/home");
    assert_eq!(ls_target(&["-l", "docs"], "/home"), "/home/docs");
    assert_eq!(ls_target(&["/etc", "x"], "/home"), "/etc");
}

#[test]
fn names_sort_bytewise() {
    assert!(name_less(&bytes("B"), &bytes("a")));
    assert!(name_less(&bytes("ab"), &bytes("abc")));
    assert!(!name_less(&bytes("abc"), &bytes("abc")));
    assert!(name_less(&vec![0x80], &bytes("é")));
    let texts = ["b", ".hidden", "a", "C"];
    let names: Vec<Vec<char>> = texts.iter().map(|t| chars_of(t)).collect();
    let keys: Vec<Vec<u8>> = texts.iter().map(|t| bytes(t)).collect();
    assert_eq!(listing_order_of(&names, &keys, false), vec![3, 2, 0]);
    assert_eq!(listing_order_of(&names, &keys, true), vec![1, 3, 2, 0]);
}

#[test]
fn short_listing_hides_dot_files_and_sorts() {
    let entries = vec![file("b.txt", 0o644, 1), file(".env", 0o644, 1), dir("src"), file("a.sh", 0o755, 1)];
    assert_eq!(ls_output(&[], &entries), "a.sh  b.txt  src  \n");
    assert_eq!(ls_output(&["-a"], &entries), ".env  a.sh  b.txt  src  \n");
    assert_eq!(ls_output(&["-F"], &entries), "a.sh*  b.txt  src/  \n");
}

#[test]
fn short_listing_of_empty_directory_prints_nothing() {
    assert_eq!(ls_output(&[], &vec![]), "");
    assert_eq!(ls_output(&[], &vec![file(".x", 0, 0)]), "");
}

#[test]
fn classify_without_metadata_prints_plain_name() {
    let entries = vec![EntryInfo { name: "gone".to_string(), name_bytes: b"gone".to_vec(), meta: None }];
    assert_eq!(ls_output(&["-F"], &entries), "gone  \n");
    assert_eq!(ls_output(&["-l"], &entries), "total 0\n");
}

#[test]
fn long_listing() {
    let entries = vec![file("run.sh", 0o100755, 1234), dir("src")];
    assert!(ls_can_render(&["-lF"], &entries));
    assert_eq!(
        ls_output(&["-lF"], &entries),
        "total 11\n-rwxr-xr-x   1  1000  1000     1234 Nov 14 22:13:20 run.sh*\ndrwxr-xr-x   2     0     0     4096 src/\n"
    );
}

#[test]
fn huge_sizes_cannot_be_counted() {
    let entries = vec![file("big", 0o644, u64::MAX)];
    assert!(!ls_can_render(&["-l"], &entries));
    assert!(ls_can_render(&[], &entries));
}

#[test]
fn permissions_ignore_file_type_bits() {
    assert_eq!(format_permissions(0o100755, false), format_permissions(0o755, false));
    assert_eq!(format_permissions(0o40700, true), "drwx------");
}

#[test]
fn equal_names_keep_directory_order() {
    let entries = vec![file("same", 0o755, 1), file("a", 0o644, 1), file("same", 0o644, 1)];
    assert_eq!(ls_output(&["-F"], &entries), "a  same*  same  \n");
    let names = vec![chars_of("x"), chars_of("x"), chars_of("a")];
    let keys = vec![bytes("x"), bytes("x"), bytes("a")];
    assert_eq!(listing_order_of(&names, &keys, false), vec![2, 0, 1]);
}

#[test]
fn names_that_are_not_utf8_sort_by_their_bytes() {
    // A name holding byte 0x80 is shown as U+FFFD but sorts before "é" (0xC3 0xA9).
    let odd = EntryInfo { name: "\u{FFFD}".to_string(), name_bytes: vec![0x80], meta: None };
    let e_acute = EntryInfo { name: "é".to_string(), name_bytes: bytes("é"), meta: None };
    assert_eq!(ls_output(&[], &vec![e_acute, odd]), "\u{FFFD}  é  \n");
}

#[test]
fn hidden_test_uses_the_printed_name() {
    let hidden = EntryInfo { name: ".x".to_string(), name_bytes: bytes(".x"), meta: None };
    let shown = EntryInfo { name: "y".to_string(), name_bytes: bytes("y"), meta: None };
    assert_eq!(ls_output(&[], &vec![hidden, shown]), "y  \n");
}

#[test]
fn leap_years_repeat_every_four_centuries() {
    for y in [1600u64, 1900, 1970, 2000, 2023, 2024] {
        assert_eq!(is_leap_year(y + 400), is_leap_year(y));
    }
    assert_eq!((1970u64..2370).filter(|y| is_leap_year(*y)).count(), 97);
}
