//! Reading one input line: trimming it, splitting it into words and naming
//! the built-in command it runs.

use vstd::prelude::*;
use crate::parse::{parse_line, spec_parse_line};
use crate::text::views_of_strings;

verus! {

/// The characters with the Unicode `White_Space` property.
pub open spec fn white_space(c: char) -> bool {
    ('\u{9}' <= c && c <= '\u{d}') || c == ' ' || c == '\u{85}' || c == '\u{a0}' || c == '\u{1680}'
        || ('\u{2000}' <= c && c <= '\u{200a}') || c == '\u{2028}' || c == '\u{2029}' || c
        == '\u{202f}' || c == '\u{205f}' || c == '\u{3000}'
}

/// Whether `c` is white space (the Unicode `White_Space` property, as
/// `char::is_whitespace` and `str::trim` use it).
fn is_whitespace(c: char) -> (res: bool)
    ensures
        res == white_space(c),
{
    ('\u{9}' <= c && c <= '\u{d}') || c == ' ' || c == '\u{85}' || c == '\u{a0}' || c == '\u{1680}'
        || ('\u{2000}' <= c && c <= '\u{200a}') || c == '\u{2028}' || c == '\u{2029}' || c
        == '\u{202f}' || c == '\u{205f}' || c == '\u{3000}'
}

pub open spec fn trim_start(s: Seq<char>) -> Seq<char>
    decreases s.len(),
{
    if s.len() != 0 && white_space(s[0]) {
        trim_start(s.drop_first())
    } else {
        s
    }
}

pub open spec fn trim_end(s: Seq<char>) -> Seq<char>
    decreases s.len(),
{
    if s.len() != 0 && white_space(s.last()) {
        trim_end(s.drop_last())
    } else {
        s
    }
}

/// `s` without white space at either end.
pub open spec fn trimmed(s: Seq<char>) -> Seq<char> {
    trim_end(trim_start(s))
}

/// `s` without white space at either end.
pub fn trim(s: &str) -> (res: &str)
    ensures
        res@ == trimmed(s@),
{
    let n = s.unicode_len();
    let mut i: usize = 0;
    proof {
        assert(s@.subrange(0, n as int) =~= s@);
    }
    while i < n && is_whitespace(s.get_char(i))
        invariant
            n == s@.len(),
            i <= n,
            trim_start(s@) == trim_start(s@.subrange(i as int, n as int)),
        decreases n - i,
    {
        proof {
            let t = s@.subrange(i as int, n as int);
            assert(t[0] == s@[i as int]);
            assert(t.drop_first() =~= s@.subrange(i + 1, n as int));
        }
        i = i + 1;
    }
    proof {
        let t = s@.subrange(i as int, n as int);
        if i < n {
            assert(t[0] == s@[i as int]);
        }
        assert(trim_start(s@) == t);
    }
    let mut j: usize = n;
    while j > i && is_whitespace(s.get_char(j - 1))
        invariant
            n == s@.len(),
            i <= j <= n,
            trimmed(s@) == trim_end(s@.subrange(i as int, j as int)),
        decreases j,
    {
        proof {
            let t = s@.subrange(i as int, j as int);
            assert(t.last() == s@[j - 1]);
            assert(t.drop_last() =~= s@.subrange(i as int, j - 1));
        }
        j = j - 1;
    }
    proof {
        let t = s@.subrange(i as int, j as int);
        if j > i {
            assert(t.last() == s@[j - 1]);
        }
    }
    s.substring_char(i, j)
}

/// Whether two strings hold the same characters.
pub fn same_text(a: &str, b: &str) -> (res: bool)
    ensures
        res == (a@ == b@),
{
    let n = a.unicode_len();
    if n != b.unicode_len() {
        return false;
    }
    let mut i: usize = 0;
    while i < n
        invariant
            n == a@.len(),
            n == b@.len(),
            i <= n,
            forall|k: int| 0 <= k < i ==> a@[k] == b@[k],
        decreases n - i,
    {
        if a.get_char(i) != b.get_char(i) {
            return false;
        }
        i = i + 1;
    }
    proof {
        assert(a@ =~= b@);
    }
    true
}

/// The commands the shell knows.
#[derive(Debug, Clone, Copy, PartialEq, Eq, Structural)]
pub enum CommandKind {
    Echo,
    Cd,
    Pwd,
    Ls,
    Cat,
    Cp,
    Rm,
    Mv,
    Mkdir,
    Exit,
    /// Any other word.
    Unknown,
}

/// The command a name stands for.
pub open spec fn command_of(name: Seq<char>) -> CommandKind {
    if name == "echo"@ {
        CommandKind::Echo
    } else if name == "cd"@ {
        CommandKind::Cd
    } else if name == "pwd"@ {
        CommandKind::Pwd
    } else if name == "ls"@ {
        CommandKind::Ls
    } else if name == "cat"@ {
        CommandKind::Cat
    } else if name == "cp"@ {
        CommandKind::Cp
    } else if name == "rm"@ {
        CommandKind::Rm
    } else if name == "mv"@ {
        CommandKind::Mv
    } else if name == "mkdir"@ {
        CommandKind::Mkdir
    } else if name == "exit"@ {
        CommandKind::Exit
    } else {
        CommandKind::Unknown
    }
}

/// The command that `name` stands for.
pub fn command_kind(name: &str) -> (res: CommandKind)
    ensures
        res == command_of(name@),
{
    if same_text(name, "echo") {
        CommandKind::Echo
    } else if same_text(name, "cd") {
        CommandKind::Cd
    } else if same_text(name, "pwd") {
        CommandKind::Pwd
    } else if same_text(name, "ls") {
        CommandKind::Ls
    } else if same_text(name, "cat") {
        CommandKind::Cat
    } else if same_text(name, "cp") {
        CommandKind::Cp
    } else if same_text(name, "rm") {
        CommandKind::Rm
    } else if same_text(name, "mv") {
        CommandKind::Mv
    } else if same_text(name, "mkdir") {
        CommandKind::Mkdir
    } else if same_text(name, "exit") {
        CommandKind::Exit
    } else {
        CommandKind::Unknown
    }
}

/// What one input line asks for.
#[derive(Debug)]
pub enum LineAction {
    /// Nothing: the line is blank, or holds no word.
    Nothing,
    /// The line cannot be split into words; the message says why.
    Invalid(String),
    /// Run a command; `words[0]` is the command's name, the rest its
    /// arguments.
    Run { kind: CommandKind, words: Vec<String> },
}

/// What the line `line` (as read, with its newline) asks for.
pub open spec fn line_action_ok(line: Seq<char>, a: LineAction) -> bool {
    let t = trimmed(line);
    if t.len() == 0 {
        a is Nothing
    } else {
        match spec_parse_line(t) {
            Err(_) => a is Invalid && a->Invalid_0@ == "unclosed quote"@,
            Ok(ws) => if ws.len() == 0 {
                a is Nothing
            } else {
                &&& a is Run
                &&& views_of_strings(a->words@) == ws
                &&& a->kind == command_of(ws[0])
            },
        }
    }
}

/// Decide what an input line asks the shell to do.
pub fn interpret_line(line: &str) -> (res: LineAction)
    ensures
        line_action_ok(line@, res),
{
    let t = trim(line);
    if t.unicode_len() == 0 {
        return LineAction::Nothing;
    }
    match parse_line(t) {
        Err(e) => LineAction::Invalid(e),
        Ok(words) => {
            if words.len() == 0 {
                LineAction::Nothing
            } else {
                let kind = command_kind(words[0].as_str());
                proof {
                    assert(views_of_strings(words@)[0] == words@[0]@);
                }
                LineAction::Run { kind, words }
            }
        },
    }
}

proof fn lemma_trim_start(s: Seq<char>)
    ensures
        trim_start(s).len() != 0 ==> !white_space(trim_start(s)[0]),
        trim_start(s).len() <= s.len(),
    decreases s.len(),
{
    if s.len() != 0 && white_space(s[0]) {
        lemma_trim_start(s.drop_first());
    }
}

proof fn lemma_trim_end(s: Seq<char>)
    ensures
        trim_end(s).len() != 0 ==> !white_space(trim_end(s).last()),
        trim_end(s).len() != 0 ==> trim_end(s)[0] == s[0],
        trim_end(s).len() <= s.len(),
        trim_end(s) == s.take(trim_end(s).len() as int),
    decreases s.len(),
{
    if s.len() != 0 && white_space(s.last()) {
        lemma_trim_end(s.drop_last());
        assert(s.drop_last().take(trim_end(s).len() as int) =~= s.take(trim_end(s).len() as int));
    } else {
        assert(s.take(s.len() as int) =~= s);
    }
}

/// A trimmed line neither starts nor ends with white space.
pub proof fn lemma_trimmed_ends(s: Seq<char>)
    ensures
        trimmed(s).len() != 0 ==> !white_space(trimmed(s)[0]) && !white_space(trimmed(s).last()),
{
    lemma_trim_start(s);
    lemma_trim_end(trim_start(s));
}

} // verus!
