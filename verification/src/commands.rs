//! The built-in commands other than `ls`: what `echo` prints, where `cd`
//! goes, which paths `cat`, `mkdir` and `rm` act on, and which copies or
//! moves `cp` and `mv` make.

use vstd::prelude::*;
use crate::text::{join_with, push_char, views_of_strs};
use crate::paths::{file_name, join_path, path_file_name, resolve_path, starts_with, starts_with_char};

verus! {

/// An argument written as a single quote character, which `echo` cannot
/// unquote.
pub open spec fn is_lone_quote(a: Seq<char>) -> bool {
    a == seq!['"'] || a == seq!['\'']
}

/// An argument with the same quote character at both ends loses them.
pub open spec fn unquote(a: Seq<char>) -> Seq<char> {
    if a.len() >= 2 && ((a[0] == '"' && a.last() == '"') || (a[0] == '\'' && a.last() == '\'')) {
        a.subrange(1, a.len() - 1)
    } else {
        a
    }
}

/// The line `echo` prints (before its newline): the arguments, each
/// unquoted, separated by single spaces.
pub open spec fn echo_text(args: Seq<Seq<char>>) -> Seq<char> {
    join_with(args.map_values(|a: Seq<char>| unquote(a)), seq![' '])
}

/// The text `echo` prints for `args`, without the final newline.
pub fn echo(args: &[&str]) -> (res: String)
    requires
        forall|i: int| 0 <= i < args@.len() ==> !is_lone_quote(#[trigger] args@[i]@),
    ensures
        res@ == echo_text(views_of_strs(args@)),
{
    let ghost v = views_of_strs(args@);
    let ghost u = v.map_values(|a: Seq<char>| unquote(a));
    let mut out = String::new();
    let n = args.len();
    let mut i: usize = 0;
    while i < n
        invariant
            n == args@.len(),
            v == views_of_strs(args@),
            u == v.map_values(|a: Seq<char>| unquote(a)),
            i <= n,
            forall|k: int| 0 <= k < n ==> !is_lone_quote(#[trigger] args@[k]@),
            out@ == join_with(u.take(i as int), seq![' ']),
        decreases n - i,
    {
        let arg = args[i];
        let len = arg.unicode_len();
        proof {
            assert(v[i as int] == arg@);
            assert(u[i as int] == unquote(arg@));
            assert(!is_lone_quote(args@[i as int]@));
        }
        let quoted = len >= 2 && ((arg.get_char(0) == '"' && arg.get_char(len - 1) == '"') || (
        arg.get_char(0) == '\'' && arg.get_char(len - 1) == '\''));
        let processed = if quoted {
            arg.substring_char(1, len - 1)
        } else {
            arg
        };
        proof {
            if len >= 2 {
                assert(arg@.last() == arg@[len - 1]);
            }
            assert(processed@ == unquote(arg@));
        }
        if i > 0 {
            push_char(&mut out, ' ');
        }
        out.append(processed);
        proof {
            let t = u.take(i + 1);
            assert(t.drop_last() =~= u.take(i as int));
            assert(t.last() == u[i as int]);
            if i == 0 {
                assert(t.len() == 1);
                assert(out@ =~= join_with(t, seq![' ']));
            } else {
                assert(out@ =~= join_with(t, seq![' ']));
            }
        }
        i = i + 1;
    }
    proof {
        assert(u.take(n as int) =~= u);
    }
    out
}

/// Where `cd` goes on Unix: home (or `/` when home is unknown) without an
/// argument, else its first argument taken relative to the current directory.
pub open spec fn cd_target_path(args: Seq<Seq<char>>, current_dir: Seq<char>, home: Option<Seq<char>>) -> Seq<char> {
    if args.len() == 0 {
        match home {
            Some(h) => h,
            None => seq!['/'],
        }
    } else {
        join_path(current_dir, args[0])
    }
}

/// The directory a `cd` with arguments `args` changes to, given the current
/// directory and the home directory (when known).
pub fn cd_target(args: &[&str], current_dir: &str, home: Option<&str>) -> (res: String)
    ensures
        res@ == cd_target_path(
            views_of_strs(args@),
            current_dir@,
            match home {
                Some(h) => Some(h@),
                None => None,
            },
        ),
{
    if args.len() == 0 {
        match home {
            Some(h) => String::from_str(h),
            None => {
                let mut s = String::new();
                push_char(&mut s, '/');
                s
            },
        }
    } else {
        proof {
            assert(views_of_strs(args@)[0] == args@[0]@);
        }
        resolve_path(current_dir, args[0])
    }
}

/// Every argument taken relative to the current directory.
pub open spec fn resolved_all(args: Seq<Seq<char>>, current_dir: Seq<char>) -> Seq<Seq<char>> {
    args.map_values(|a: Seq<char>| join_path(current_dir, a))
}

/// The paths that `args` name, relative to `current_dir`, in order.
pub fn resolve_all(args: &[&str], current_dir: &str) -> (res: Vec<String>)
    ensures
        crate::text::views_of_strings(res@) == resolved_all(views_of_strs(args@), current_dir@),
{
    let mut out: Vec<String> = Vec::new();
    let mut i: usize = 0;
    while i < args.len()
        invariant
            i <= args@.len(),
            out@.len() == i,
            forall|k: int| 0 <= k < i ==> (#[trigger] out@[k])@ == join_path(current_dir@, args@[k]@),
        decreases args.len() - i,
    {
        out.push(resolve_path(current_dir, args[i]));
        i = i + 1;
    }
    proof {
        assert(crate::text::views_of_strings(out@) =~= resolved_all(views_of_strs(args@), current_dir@));
    }
    out
}

/// Why a command refuses its arguments before touching any file.
#[derive(Debug, PartialEq, Eq)]
pub enum UsageError {
    /// No operand at all (`rm`, `mkdir`).
    MissingOperand,
    /// Fewer than a source and a destination (`cp`, `mv`).
    MissingFileOperand,
    /// Several sources, and the destination (as written) is not a directory.
    NotADirectory(String),
}

/// The error line a command prints for a usage error.
pub open spec fn usage_message(command: Seq<char>, e: UsageError) -> Seq<char> {
    match e {
        UsageError::MissingOperand => command + ": missing operand"@,
        UsageError::MissingFileOperand => command + ": missing file operand"@,
        UsageError::NotADirectory(d) => command + ": target '"@ + d@ + "' is not a directory"@,
    }
}

/// The message `command` prints for `e`.
pub fn usage_error_message(command: &str, e: &UsageError) -> (res: String)
    ensures
        res@ == usage_message(command@, *e),
{
    let mut out = String::from_str(command);
    match e {
        UsageError::MissingOperand => out.append(": missing operand"),
        UsageError::MissingFileOperand => out.append(": missing file operand"),
        UsageError::NotADirectory(d) => {
            out.append(": target '");
            out.append(d.as_str());
            out.append("' is not a directory");
        },
    }
    proof {
        assert(out@ =~= usage_message(command@, *e));
    }
    out
}

/// The directories `mkdir` creates, or its usage error.
pub fn mkdir_paths(args: &[&str], current_dir: &str) -> (res: Result<Vec<String>, UsageError>)
    ensures
        args@.len() == 0 <==> res is Err,
        res is Err ==> res->Err_0 == UsageError::MissingOperand,
        res is Ok ==> crate::text::views_of_strings(res->Ok_0@) == resolved_all(
            views_of_strs(args@),
            current_dir@,
        ),
{
    if args.len() == 0 {
        Err(UsageError::MissingOperand)
    } else {
        Ok(resolve_all(args, current_dir))
    }
}

/// The files `cat` prints, in order (with no argument it copies its input).
pub fn cat_paths(args: &[&str], current_dir: &str) -> (res: Vec<String>)
    ensures
        crate::text::views_of_strings(res@) == resolved_all(views_of_strs(args@), current_dir@),
{
    resolve_all(args, current_dir)
}

/// How many leading arguments are options (start with `-`).
pub open spec fn option_count(args: Seq<Seq<char>>) -> nat
    decreases args.len(),
{
    if args.len() == 0 || !starts_with_char(args[0], '-') {
        0
    } else {
        1 + option_count(args.drop_first())
    }
}

/// Whether one of the leading options contains `r` or `R`.
pub open spec fn recursive_requested(args: Seq<Seq<char>>) -> bool
    decreases args.len(),
{
    if args.len() == 0 || !starts_with_char(args[0], '-') {
        false
    } else {
        args[0].contains('r') || args[0].contains('R') || recursive_requested(args.drop_first())
    }
}

/// What `rm` will do with its arguments.
#[derive(Debug)]
pub struct RmPlan {
    /// `-r` or `-R` was given: directories are removed with their contents.
    pub recursive: bool,
    /// The paths after the options, relative to the current directory.
    pub paths: Vec<String>,
}

fn contains_char(s: &str, c: char) -> (res: bool)
    ensures
        res == s@.contains(c),
{
    let n = s.unicode_len();
    let mut i: usize = 0;
    while i < n
        invariant
            n == s@.len(),
            i <= n,
            forall|k: int| 0 <= k < i ==> s@[k] != c,
        decreases n - i,
    {
        if s.get_char(i) == c {
            return true;
        }
        i = i + 1;
    }
    false
}

/// The plan of an `rm` call, or its usage error when it has no argument.
pub fn rm_plan(args: &[&str], current_dir: &str) -> (res: Result<RmPlan, UsageError>)
    ensures
        args@.len() == 0 <==> res is Err,
        res is Err ==> res->Err_0 == UsageError::MissingOperand,
        res is Ok ==> ({
            let v = views_of_strs(args@);
            &&& res->Ok_0.recursive == recursive_requested(v)
            &&& crate::text::views_of_strings(res->Ok_0.paths@) == resolved_all(
                v.skip(option_count(v) as int),
                current_dir@,
            )
        }),
{
    if args.len() == 0 {
        return Err(UsageError::MissingOperand);
    }
    let ghost v = views_of_strs(args@);
    let n = args.len();
    let mut recursive = false;
    let mut i: usize = 0;
    proof {
        assert(v.skip(0) =~= v);
    }
    while i < n && starts_with(args[i], '-')
        invariant
            n == args@.len(),
            v == views_of_strs(args@),
            v.len() == n,
            i <= n,
            recursive_requested(v) == (recursive || recursive_requested(v.skip(i as int))),
            option_count(v) == i + option_count(v.skip(i as int)),
        decreases n - i,
    {
        proof {
            assert(v[i as int] == args@[i as int]@);
            assert(v.skip(i as int)[0] == v[i as int]);
            assert(v.skip(i as int).drop_first() =~= v.skip(i + 1));
        }
        if contains_char(args[i], 'r') || contains_char(args[i], 'R') {
            recursive = true;
        }
        i = i + 1;
    }
    proof {
        if i < n {
            assert(v[i as int] == args@[i as int]@);
            assert(v.skip(i as int)[0] == v[i as int]);
        } else {
            assert(v.skip(i as int) =~= Seq::<Seq<char>>::empty());
        }
    }
    let mut paths: Vec<String> = Vec::new();
    let mut j: usize = i;
    while j < n
        invariant
            n == args@.len(),
            v == views_of_strs(args@),
            i <= j <= n,
            paths@.len() == j - i,
            forall|k: int| 0 <= k < j - i ==> (#[trigger] paths@[k])@ == join_path(current_dir@, v[i + k]),
        decreases n - j,
    {
        proof {
            assert(v[j as int] == args@[j as int]@);
        }
        paths.push(resolve_path(current_dir, args[j]));
        j = j + 1;
    }
    proof {
        assert(crate::text::views_of_strings(paths@) =~= resolved_all(v.skip(i as int), current_dir@));
    }
    Ok(RmPlan { recursive, paths })
}

/// What `rm` does with one path.
#[derive(Debug, Clone, Copy, PartialEq, Eq, Structural)]
pub enum RmAction {
    /// Remove the directory and everything in it.
    RemoveTree,
    /// Refuse: a directory without `-r`.
    RefuseDirectory,
    /// Remove the file.
    RemoveFile,
}

/// What `rm` does with a path, given whether it is a directory.
pub fn rm_action(is_dir: bool, recursive: bool) -> (res: RmAction)
    ensures
        res == (if is_dir {
            if recursive {
                RmAction::RemoveTree
            } else {
                RmAction::RefuseDirectory
            }
        } else {
            RmAction::RemoveFile
        }),
{
    if is_dir {
        if recursive {
            RmAction::RemoveTree
        } else {
            RmAction::RefuseDirectory
        }
    } else {
        RmAction::RemoveFile
    }
}

/// One copy or move: from `source` to `dest`.
#[derive(Debug)]
pub struct Transfer {
    pub source: String,
    pub dest: String,
}

/// The destination of `cp`/`mv`, relative to the current directory, once
/// there are at least a source and a destination.
pub fn transfer_destination(args: &[&str], current_dir: &str) -> (res: Result<String, UsageError>)
    ensures
        args@.len() < 2 <==> res is Err,
        res is Err ==> res->Err_0 == UsageError::MissingFileOperand,
        res is Ok ==> res->Ok_0@ == join_path(current_dir@, args@.last()@),
{
    if args.len() < 2 {
        Err(UsageError::MissingFileOperand)
    } else {
        Ok(resolve_path(current_dir, args[args.len() - 1]))
    }
}

/// Where one source goes: into the destination directory under its own
/// name (or, when it has none, under the source as written), or to the
/// destination itself.
pub open spec fn transfer_target(
    source_arg: Seq<char>,
    current_dir: Seq<char>,
    dest_path: Seq<char>,
    dest_is_dir: bool,
) -> Seq<char> {
    let source_path = join_path(current_dir, source_arg);
    if dest_is_dir {
        join_path(
            dest_path,
            match file_name(source_path) {
                Some(n) => n,
                None => source_arg,
            },
        )
    } else {
        dest_path
    }
}

/// The transfers `cp` or `mv` makes, given whether its destination is a
/// directory: one per source, in order; or the usage error it reports
/// before doing anything.
pub open spec fn transfer_plan_ok(
    args: Seq<Seq<char>>,
    current_dir: Seq<char>,
    dest_is_dir: bool,
    plan: Seq<Transfer>,
) -> bool {
    let dest_path = join_path(current_dir, args.last());
    &&& plan.len() == args.len() - 1
    &&& forall|k: int|
        0 <= k < plan.len() ==> {
            &&& (#[trigger] plan[k]).source@ == join_path(current_dir, args[k])
            &&& plan[k].dest@ == transfer_target(args[k], current_dir, dest_path, dest_is_dir)
        }
}

/// The plan of a `cp` or `mv` call whose destination is (or is not) a
/// directory.
pub fn transfer_plan(args: &[&str], current_dir: &str, dest_is_dir: bool) -> (res: Result<
    Vec<Transfer>,
    UsageError,
>)
    ensures
        args@.len() < 2 ==> res == Err::<Vec<Transfer>, UsageError>(UsageError::MissingFileOperand),
        args@.len() >= 2 && !dest_is_dir && args@.len() > 2 ==> (res is Err && res->Err_0
            is NotADirectory && res->Err_0->NotADirectory_0@ == args@.last()@),
        res is Ok <==> (args@.len() >= 2 && (dest_is_dir || args@.len() == 2)),
        res is Ok ==> transfer_plan_ok(views_of_strs(args@), current_dir@, dest_is_dir, res->Ok_0@),
{
    if args.len() < 2 {
        return Err(UsageError::MissingFileOperand);
    }
    let n = args.len();
    let dest = args[n - 1];
    if !dest_is_dir && n - 1 > 1 {
        return Err(UsageError::NotADirectory(String::from_str(dest)));
    }
    let ghost v = views_of_strs(args@);
    let dest_path = resolve_path(current_dir, dest);
    proof {
        assert(v.last() == dest@);
    }
    let mut plan: Vec<Transfer> = Vec::new();
    let mut i: usize = 0;
    while i < n - 1
        invariant
            n == args@.len(),
            n >= 2,
            v == views_of_strs(args@),
            dest_path@ == join_path(current_dir@, v.last()),
            i <= n - 1,
            plan@.len() == i,
            forall|k: int|
                0 <= k < i ==> {
                    &&& (#[trigger] plan@[k]).source@ == join_path(current_dir@, v[k])
                    &&& plan@[k].dest@ == transfer_target(v[k], current_dir@, dest_path@, dest_is_dir)
                },
        decreases n - 1 - i,
    {
        let source = args[i];
        proof {
            assert(v[i as int] == source@);
        }
        let source_path = resolve_path(current_dir, source);
        let final_dest = if dest_is_dir {
            match path_file_name(source_path.as_str()) {
                Some(name) => resolve_path(dest_path.as_str(), name.as_str()),
                None => resolve_path(dest_path.as_str(), source),
            }
        } else {
            String::from_str(dest_path.as_str())
        };
        plan.push(Transfer { source: source_path, dest: final_dest });
        i = i + 1;
    }
    Ok(plan)
}

/// A word that does not start with a quote character.
pub open spec fn unquoted_word(a: Seq<char>) -> bool {
    !starts_with_char(a, '"') && !starts_with_char(a, '\'')
}

/// `echo` prints words that carry no quotes as they are, joined by single
/// spaces.
pub proof fn lemma_echo_plain(args: Seq<Seq<char>>)
    requires
        forall|i: int| 0 <= i < args.len() ==> unquoted_word(#[trigger] args[i]),
    ensures
        echo_text(args) == join_with(args, seq![' ']),
{
    let u = args.map_values(|a: Seq<char>| unquote(a));
    assert(u =~= args) by {
        assert forall|i: int| 0 <= i < args.len() implies u[i] == args[i] by {
            assert(unquoted_word(args[i]));
        }
    }
}

/// A line of plain words, read by the tokenizer and echoed, prints as
/// written.
pub proof fn lemma_echo_of_plain_line(ws: Seq<Seq<char>>)
    requires
        forall|i: int| 0 <= i < ws.len() ==> (#[trigger] ws[i]).len() != 0,
        forall|i: int, j: int|
            0 <= i < ws.len() && 0 <= j < ws[i].len() ==> crate::parse::is_plain(#[trigger] ws[i][j]),
    ensures
        crate::parse::spec_parse_line(join_with(ws, seq![' '])) matches Ok(words) && echo_text(words)
            == join_with(ws, seq![' ']),
{
    crate::parse::lemma_parse_line_join_roundtrip(ws);
    assert forall|i: int| 0 <= i < ws.len() implies unquoted_word(#[trigger] ws[i]) by {
        assert(crate::parse::is_plain(ws[i][0]));
    }
    lemma_echo_plain(ws);
}

/// Copying or moving into a directory keeps each source's name.
pub proof fn lemma_transfer_keeps_name(
    args: Seq<Seq<char>>,
    current_dir: Seq<char>,
    plan: Seq<Transfer>,
    k: int,
)
    requires
        transfer_plan_ok(args, current_dir, true, plan),
        0 <= k < plan.len(),
        file_name(plan[k].source@) is Some,
    ensures
        file_name(plan[k].dest@) == file_name(plan[k].source@),
{
    let n = file_name(plan[k].source@)->Some_0;
    crate::paths::lemma_file_name_is_plain(plan[k].source@);
    crate::paths::lemma_file_name_of_join(join_path(current_dir, args.last()), n);
}

/// An option that asks for recursive removal.
pub open spec fn asks_recursive(a: Seq<char>) -> bool {
    a.contains('r') || a.contains('R')
}

/// How `rm` reads its options: the leading arguments that start with `-`
/// are options (the first that does not ends them), and the removal is
/// recursive exactly when one of those options contains `r` or `R`,
/// wherever it stands among them.
pub proof fn lemma_rm_options(args: Seq<Seq<char>>)
    ensures
        option_count(args) <= args.len(),
        forall|i: int| 0 <= i < option_count(args) ==> starts_with_char(#[trigger] args[i], '-'),
        option_count(args) < args.len() ==> !starts_with_char(args[option_count(args) as int], '-'),
        recursive_requested(args) <==> exists|i: int|
            0 <= i < option_count(args) && #[trigger] asks_recursive(args[i]),
    decreases args.len(),
{
    if args.len() != 0 && starts_with_char(args[0], '-') {
        let rest = args.drop_first();
        lemma_rm_options(rest);
        assert(option_count(args) == 1 + option_count(rest));
        assert forall|i: int| 0 <= i < option_count(args) implies starts_with_char(
            #[trigger] args[i],
            '-',
        ) by {
            if i > 0 {
                assert(args[i] == rest[i - 1]);
            }
        }
        if option_count(args) < args.len() {
            assert(args[option_count(args) as int] == rest[option_count(rest) as int]);
        }
        assert(recursive_requested(args) == (asks_recursive(args[0]) || recursive_requested(rest)));
        if recursive_requested(args) {
            if asks_recursive(args[0]) {
                assert(0 < option_count(args));
            } else {
                let j = choose|j: int| 0 <= j < option_count(rest) && #[trigger] asks_recursive(rest[j]);
                assert(args[j + 1] == rest[j]);
                assert(asks_recursive(args[j + 1]));
            }
        }
        if exists|i: int| 0 <= i < option_count(args) && #[trigger] asks_recursive(args[i]) {
            let i = choose|i: int| 0 <= i < option_count(args) && #[trigger] asks_recursive(args[i]);
            if i > 0 {
                assert(args[i] == rest[i - 1]);
                assert(asks_recursive(rest[i - 1]));
            }
        }
    }
}

/// `echo` drops one pair of matching quotes around each word: words each
/// wrapped in the same quote character print as the bare words joined by
/// single spaces.
pub proof fn lemma_echo_strips_quotes(ws: Seq<Seq<char>>, q: char)
    requires
        q == '"' || q == '\'',
    ensures
        echo_text(ws.map_values(|t: Seq<char>| seq![q] + t + seq![q])) == join_with(ws, seq![' ']),
{
    let wrapped = ws.map_values(|t: Seq<char>| seq![q] + t + seq![q]);
    let u = wrapped.map_values(|a: Seq<char>| unquote(a));
    assert(u =~= ws) by {
        assert forall|i: int| 0 <= i < ws.len() implies u[i] == ws[i] by {
            let a = wrapped[i];
            assert(a == seq![q] + ws[i] + seq![q]);
            assert(a[0] == q);
            assert(a.last() == q);
            assert(a.subrange(1, a.len() - 1) =~= ws[i]);
        }
    }
}

} // verus!
