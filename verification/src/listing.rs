//! `ls`: its options, the directory it lists, and the text it prints for a
//! set of directory entries.

use vstd::prelude::*;
use crate::text::{push_char, views_of_strs};
use crate::format::{
    civil_from_secs, civil_time, decimal, decimal_string, file_size_blocks, format_permissions,
    is_executable, mode_is_executable, month_length, pad_left, padded, permissions_text, CivilTime,
};
use crate::order::{chars_of, listing_order, listing_order_of};
use crate::paths::{join_path, resolve_path, starts_with};

verus! {

/// What `ls -l` shows of a file.
#[derive(Debug)]
pub struct FileMeta {
    pub is_dir: bool,
    pub mode: u32,
    pub nlink: u64,
    pub uid: u32,
    pub gid: u32,
    pub size: u64,
    /// Seconds since the epoch of the last change, when known.
    pub modified: Option<u64>,
}

/// One entry of a directory: its name, and what is known of the file
/// (nothing when its metadata could not be read).
#[derive(Debug)]
pub struct EntryInfo {
    /// The name as text, as it is printed (and tested for a leading dot).
    pub name: String,
    /// The name as the operating system stores it; entries sort by these bytes.
    pub name_bytes: Vec<u8>,
    pub meta: Option<FileMeta>,
}

/// The options of one `ls` call.
#[derive(Debug)]
pub struct LsOptions {
    /// `-l`: long listing.
    pub long: bool,
    /// `-a`: hidden entries too.
    pub all: bool,
    /// `-F`: mark directories and executables.
    pub classify: bool,
    /// The argument that names the directory to list, if any.
    pub path_index: Option<usize>,
}

pub open spec fn is_flag(a: Seq<char>) -> bool {
    a.len() != 0 && a[0] == '-'
}

/// How many arguments at the front are options (start with `-`).
pub open spec fn flag_count(args: Seq<Seq<char>>) -> nat
    decreases args.len(),
{
    if args.len() == 0 || !is_flag(args[0]) {
        0
    } else {
        1 + flag_count(args.drop_first())
    }
}

/// Whether the letter `c` occurs after the dash of one of the leading
/// option arguments.
pub open spec fn flag_set(args: Seq<Seq<char>>, c: char) -> bool
    decreases args.len(),
{
    if args.len() == 0 || !is_flag(args[0]) {
        false
    } else {
        args[0].drop_first().contains(c) || flag_set(args.drop_first(), c)
    }
}

/// The options that the arguments of `ls` select. Options end at the first
/// argument that does not start with `-`, which names the directory; later
/// arguments are ignored.
pub open spec fn ls_options(args: Seq<Seq<char>>) -> LsOptions {
    LsOptions {
        long: flag_set(args, 'l'),
        all: flag_set(args, 'a'),
        classify: flag_set(args, 'F'),
        path_index: if flag_count(args) < args.len() {
            Some(flag_count(args) as usize)
        } else {
            None
        },
    }
}

fn letters_after_dash(arg: &str) -> (res: (bool, bool, bool))
    requires
        arg@.len() != 0,
    ensures
        res.0 == arg@.drop_first().contains('l'),
        res.1 == arg@.drop_first().contains('a'),
        res.2 == arg@.drop_first().contains('F'),
{
    let n = arg.unicode_len();
    let mut l = false;
    let mut a = false;
    let mut f = false;
    let mut j: usize = 1;
    while j < n
        invariant
            n == arg@.len(),
            1 <= j <= n,
            l == arg@.subrange(1, j as int).contains('l'),
            a == arg@.subrange(1, j as int).contains('a'),
            f == arg@.subrange(1, j as int).contains('F'),
        decreases n - j,
    {
        let c = arg.get_char(j);
        let ghost before = arg@.subrange(1, j as int);
        proof {
            assert(arg@.subrange(1, j + 1) =~= before.push(c));
            assert(before.push(c).last() == c);
            assert forall|x: char| before.push(c).contains(x) <==> (before.contains(x) || x == c) by {
                if before.push(c).contains(x) {
                    let k = choose|k: int| 0 <= k < before.push(c).len() && before.push(c)[k] == x;
                    if k < before.len() {
                        assert(before[k] == x);
                    }
                }
                if before.contains(x) {
                    let k = choose|k: int| 0 <= k < before.len() && before[k] == x;
                    assert(before.push(c)[k] == x);
                }
                if x == c {
                    assert(before.push(c)[before.len() as int] == x);
                }
            }
        }
        if c == 'l' {
            l = true;
        } else if c == 'a' {
            a = true;
        } else if c == 'F' {
            f = true;
        }
        j = j + 1;
    }
    proof {
        assert(arg@.subrange(1, n as int) =~= arg@.drop_first());
    }
    (l, a, f)
}

/// The options of an `ls` call with arguments `args`.
pub fn parse_ls_args(args: &[&str]) -> (res: LsOptions)
    ensures
        res == ls_options(views_of_strs(args@)),
{
    let ghost v = views_of_strs(args@);
    let mut long = false;
    let mut all = false;
    let mut classify = false;
    let n = args.len();
    let mut i: usize = 0;
    proof {
        assert(v.skip(0) =~= v);
    }
    while i < n && starts_with(args[i], '-')
        invariant
            n == args@.len(),
            v == views_of_strs(args@),
            v.len() == n,
            i <= n,
            flag_set(v, 'l') == (long || flag_set(v.skip(i as int), 'l')),
            flag_set(v, 'a') == (all || flag_set(v.skip(i as int), 'a')),
            flag_set(v, 'F') == (classify || flag_set(v.skip(i as int), 'F')),
            flag_count(v) == i + flag_count(v.skip(i as int)),
        decreases n - i,
    {
        let arg = args[i];
        proof {
            assert(v[i as int] == arg@);
            assert(v.skip(i as int)[0] == arg@);
            assert(v.skip(i as int).drop_first() =~= v.skip(i + 1));
        }
        let (l, a, f) = letters_after_dash(arg);
        long = long || l;
        all = all || a;
        classify = classify || f;
        i = i + 1;
    }
    proof {
        if i < n {
            assert(v[i as int] == args@[i as int]@);
            assert(v.skip(i as int)[0] == v[i as int]);
            assert(!is_flag(v.skip(i as int)[0]));
        }
    }
    proof {
        if i == n {
            assert(v.skip(i as int) =~= Seq::<Seq<char>>::empty());
        }
    }
    LsOptions {
        long,
        all,
        classify,
        path_index: if i < n {
            Some(i)
        } else {
            None
        },
    }
}

/// The directory that `ls` lists: the one its path argument names, or the
/// current directory.
pub open spec fn ls_target_path(args: Seq<Seq<char>>, current_dir: Seq<char>) -> Seq<char> {
    match ls_options(args).path_index {
        Some(k) => join_path(current_dir, args[k as int]),
        None => current_dir,
    }
}

/// The directory an `ls` call with arguments `args` lists.
pub fn ls_target(args: &[&str], current_dir: &str) -> (res: String)
    ensures
        res@ == ls_target_path(views_of_strs(args@), current_dir@),
{
    let opts = parse_ls_args(args);
    match opts.path_index {
        Some(k) => {
            proof {
                assert(views_of_strs(args@)[k as int] == args@[k as int]@);
            }
            resolve_path(current_dir, args[k])
        },
        None => String::from_str(current_dir),
    }
}

/// `/` for a directory, `*` for an executable file, nothing otherwise.
pub open spec fn type_suffix(m: FileMeta) -> Seq<char> {
    if m.is_dir {
        seq!['/']
    } else if mode_is_executable(m.mode) {
        seq!['*']
    } else {
        Seq::empty()
    }
}

/// One entry of the short listing: name, suffix with `-F` when the
/// metadata is known, two spaces.
pub open spec fn short_item(e: EntryInfo, classify: bool) -> Seq<char> {
    e.name@ + (if classify && e.meta is Some {
        type_suffix(e.meta->Some_0)
    } else {
        Seq::empty()
    }) + seq![' ', ' ']
}

pub open spec fn short_items(entries: Seq<EntryInfo>, order: Seq<usize>, classify: bool) -> Seq<
    char,
>
    decreases order.len(),
{
    if order.len() == 0 {
        Seq::empty()
    } else {
        short_items(entries, order.drop_last(), classify) + short_item(
            entries[order.last() as int],
            classify,
        )
    }
}

/// The short listing: the entries on one line, ended by a newline unless
/// there are none.
pub open spec fn short_listing(entries: Seq<EntryInfo>, order: Seq<usize>, classify: bool) -> Seq<
    char,
> {
    short_items(entries, order, classify) + (if order.len() != 0 {
        seq!['\n']
    } else {
        Seq::empty()
    })
}

pub open spec fn month_abbrev(m: int) -> Seq<char> {
    if m == 0 {
        seq!['J', 'a', 'n']
    } else if m == 1 {
        seq!['F', 'e', 'b']
    } else if m == 2 {
        seq!['M', 'a', 'r']
    } else if m == 3 {
        seq!['A', 'p', 'r']
    } else if m == 4 {
        seq!['M', 'a', 'y']
    } else if m == 5 {
        seq!['J', 'u', 'n']
    } else if m == 6 {
        seq!['J', 'u', 'l']
    } else if m == 7 {
        seq!['A', 'u', 'g']
    } else if m == 8 {
        seq!['S', 'e', 'p']
    } else if m == 9 {
        seq!['O', 'c', 't']
    } else if m == 10 {
        seq!['N', 'o', 'v']
    } else {
        seq!['D', 'e', 'c']
    }
}

/// `Mon dd hh:mm:ss ` for a moment: day right-aligned in two columns, the
/// time fields zero-padded to two digits.
pub open spec fn date_text(t: CivilTime) -> Seq<char> {
    month_abbrev(t.month as int) + seq![' '] + pad_left(decimal(t.day as nat), 2, ' ') + seq![' ']
        + pad_left(decimal(t.hour as nat), 2, '0') + seq![':'] + pad_left(
        decimal(t.minute as nat),
        2,
        '0',
    ) + seq![':'] + pad_left(decimal(t.second as nat), 2, '0') + seq![' ']
}

/// One line of the long listing.
pub open spec fn long_line(name: Seq<char>, m: FileMeta, classify: bool) -> Seq<char> {
    permissions_text(m.mode, m.is_dir) + seq![' '] + pad_left(decimal(m.nlink as nat), 3, ' ')
        + seq![' '] + pad_left(decimal(m.uid as nat), 5, ' ') + seq![' '] + pad_left(
        decimal(m.gid as nat),
        5,
        ' ',
    ) + seq![' '] + pad_left(decimal(m.size as nat), 8, ' ') + seq![' '] + (match m.modified {
        Some(s) => date_text(civil_time(s)),
        None => Seq::empty(),
    }) + name + (if classify {
        type_suffix(m)
    } else {
        Seq::empty()
    }) + seq!['\n']
}

/// The lines of the long listing; entries without metadata are left out.
pub open spec fn long_lines(entries: Seq<EntryInfo>, order: Seq<usize>, classify: bool) -> Seq<
    char,
>
    decreases order.len(),
{
    if order.len() == 0 {
        Seq::empty()
    } else {
        let e = entries[order.last() as int];
        long_lines(entries, order.drop_last(), classify) + match e.meta {
            Some(m) => long_line(e.name@, m, classify),
            None => Seq::empty(),
        }
    }
}

/// 512-byte blocks for `size` bytes, rounded up.
pub open spec fn size_blocks(size: u64) -> int {
    (size + 511) / 512
}

/// Blocks of all listed entries whose metadata is known.
pub open spec fn total_blocks(entries: Seq<EntryInfo>, order: Seq<usize>) -> int
    decreases order.len(),
{
    if order.len() == 0 {
        0
    } else {
        total_blocks(entries, order.drop_last()) + match entries[order.last() as int].meta {
            Some(m) => size_blocks(m.size),
            None => 0,
        }
    }
}

/// The long listing: a `total` line with the block count, then one line per
/// entry whose metadata is known.
pub open spec fn long_listing(entries: Seq<EntryInfo>, order: Seq<usize>, classify: bool) -> Seq<
    char,
> {
    seq!['t', 'o', 't', 'a', 'l', ' '] + decimal(total_blocks(entries, order) as nat) + seq!['\n']
        + long_lines(entries, order, classify)
}

/// The raw names of the entries, by which they are sorted.
pub open spec fn entry_keys(entries: Seq<EntryInfo>) -> Seq<Seq<u8>> {
    entries.map_values(|e: EntryInfo| e.name_bytes@)
}

pub open spec fn entry_names(entries: Seq<EntryInfo>) -> Seq<Seq<char>> {
    entries.map_values(|e: EntryInfo| e.name@)
}

/// The entries `ls` shows, in the order it shows them.
pub open spec fn ls_order(args: Seq<Seq<char>>, entries: Seq<EntryInfo>) -> Seq<usize> {
    listing_order(entry_names(entries), entry_keys(entries), ls_options(args).all)
}

/// The block counts of a long listing fit in 64 bits.
pub open spec fn blocks_fit(entries: Seq<EntryInfo>, order: Seq<usize>) -> bool {
    &&& forall|j: int|
        0 <= j < order.len() && (#[trigger] entries[order[j] as int]).meta is Some
            ==> entries[order[j] as int].meta->Some_0.size + 511 <= u64::MAX
    &&& total_blocks(entries, order) <= u64::MAX
}

/// What `ls` with arguments `args` prints for a directory holding `entries`.
pub open spec fn ls_text(args: Seq<Seq<char>>, entries: Seq<EntryInfo>) -> Seq<char> {
    let opts = ls_options(args);
    let order = ls_order(args, entries);
    if opts.long {
        long_listing(entries, order, opts.classify)
    } else {
        short_listing(entries, order, opts.classify)
    }
}

/// Whether `ls` can render `entries` with the options in `args`: a long
/// listing must count its blocks within 64 bits.
pub open spec fn ls_renderable(args: Seq<Seq<char>>, entries: Seq<EntryInfo>) -> bool {
    ls_options(args).long ==> blocks_fit(entries, ls_order(args, entries))
}

fn push_suffix(out: &mut String, m: &FileMeta)
    ensures
        final(out)@ == old(out)@ + type_suffix(*m),
{
    if m.is_dir {
        push_char(out, '/');
    } else if is_executable(m.mode) {
        push_char(out, '*');
    }
    proof {
        assert(out@ =~= old(out)@ + type_suffix(*m));
    }
}

fn push_str(out: &mut String, s: &String)
    ensures
        final(out)@ == old(out)@ + s@,
{
    out.append(s.as_str());
}

fn month_abbrev_string(m: usize) -> (res: String)
    requires
        m < 12,
    ensures
        res@ == month_abbrev(m as int),
{
    let (a, b, c) = if m == 0 {
        ('J', 'a', 'n')
    } else if m == 1 {
        ('F', 'e', 'b')
    } else if m == 2 {
        ('M', 'a', 'r')
    } else if m == 3 {
        ('A', 'p', 'r')
    } else if m == 4 {
        ('M', 'a', 'y')
    } else if m == 5 {
        ('J', 'u', 'n')
    } else if m == 6 {
        ('J', 'u', 'l')
    } else if m == 7 {
        ('A', 'u', 'g')
    } else if m == 8 {
        ('S', 'e', 'p')
    } else if m == 9 {
        ('O', 'c', 't')
    } else if m == 10 {
        ('N', 'o', 'v')
    } else {
        ('D', 'e', 'c')
    };
    let mut s = String::new();
    push_char(&mut s, a);
    push_char(&mut s, b);
    push_char(&mut s, c);
    proof {
        assert(s@ =~= month_abbrev(m as int));
    }
    s
}

fn padded_number(n: u64, width: usize, fill: char) -> (res: String)
    ensures
        res@ == pad_left(decimal(n as nat), width as nat, fill),
{
    let d = decimal_string(n);
    padded(d.as_str(), width, fill)
}

/// The date column of a long listing for a modification time.
pub fn date_string(secs: u64) -> (res: String)
    ensures
        res@ == date_text(civil_time(secs)),
{
    let t = civil_from_secs(secs);
    let mut out = month_abbrev_string(t.month);
    push_char(&mut out, ' ');
    push_str(&mut out, &padded_number(t.day, 2, ' '));
    push_char(&mut out, ' ');
    push_str(&mut out, &padded_number(t.hour, 2, '0'));
    push_char(&mut out, ':');
    push_str(&mut out, &padded_number(t.minute, 2, '0'));
    push_char(&mut out, ':');
    push_str(&mut out, &padded_number(t.second, 2, '0'));
    push_char(&mut out, ' ');
    proof {
        assert(out@ =~= date_text(t));
    }
    out
}

/// One line of the long listing for an entry named `name`.
pub fn long_line_string(name: &String, m: &FileMeta, classify: bool) -> (res: String)
    ensures
        res@ == long_line(name@, *m, classify),
{
    let mut out = format_permissions(m.mode, m.is_dir);
    push_char(&mut out, ' ');
    push_str(&mut out, &padded_number(m.nlink, 3, ' '));
    push_char(&mut out, ' ');
    push_str(&mut out, &padded_number(m.uid as u64, 5, ' '));
    push_char(&mut out, ' ');
    push_str(&mut out, &padded_number(m.gid as u64, 5, ' '));
    push_char(&mut out, ' ');
    push_str(&mut out, &padded_number(m.size, 8, ' '));
    push_char(&mut out, ' ');
    let ghost before_date = out@;
    match m.modified {
        Some(secs) => {
            push_str(&mut out, &date_string(secs));
        },
        None => {},
    }
    let ghost after_date = out@;
    push_str(&mut out, name);
    if classify {
        push_suffix(&mut out, m);
    }
    push_char(&mut out, '\n');
    proof {
        let date = match m.modified {
            Some(s) => date_text(civil_time(s)),
            None => Seq::empty(),
        };
        assert(after_date =~= before_date + date);
        assert(out@ =~= long_line(name@, *m, classify));
    }
    out
}

proof fn lemma_total_blocks_prefix(entries: Seq<EntryInfo>, order: Seq<usize>, i: int)
    requires
        0 <= i <= order.len(),
    ensures
        0 <= total_blocks(entries, order.take(i)) <= total_blocks(entries, order),
    decreases order.len() - i,
{
    if i < order.len() {
        lemma_total_blocks_prefix(entries, order, i + 1);
        assert(order.take(i + 1).drop_last() =~= order.take(i));
        assert(order.take(i + 1).len() == i + 1);
        assert(total_blocks(entries, order.take(i + 1)) >= total_blocks(entries, order.take(i)));
        lemma_total_blocks_nonneg(entries, order.take(i));
    } else {
        assert(order.take(i) =~= order);
        lemma_total_blocks_nonneg(entries, order);
    }
}

proof fn lemma_total_blocks_nonneg(entries: Seq<EntryInfo>, order: Seq<usize>)
    ensures
        0 <= total_blocks(entries, order),
    decreases order.len(),
{
    if order.len() != 0 {
        lemma_total_blocks_nonneg(entries, order.drop_last());
    }
}

fn entry_name_chars(entries: &Vec<EntryInfo>) -> (res: Vec<Vec<char>>)
    ensures
        res@.map_values(|n: Vec<char>| n@) == entry_names(entries@),
{
    let mut out: Vec<Vec<char>> = Vec::new();
    let mut i: usize = 0;
    while i < entries.len()
        invariant
            i <= entries@.len(),
            out@.len() == i,
            forall|j: int| 0 <= j < i ==> (#[trigger] out@[j])@ == entries@[j].name@,
        decreases entries.len() - i,
    {
        out.push(chars_of(entries[i].name.as_str()));
        i = i + 1;
    }
    proof {
        assert(out@.map_values(|n: Vec<char>| n@) =~= entry_names(entries@));
    }
    out
}

fn copy_bytes(b: &Vec<u8>) -> (res: Vec<u8>)
    ensures
        res@ == b@,
{
    let mut out: Vec<u8> = Vec::new();
    let mut i: usize = 0;
    while i < b.len()
        invariant
            i <= b@.len(),
            out@ == b@.take(i as int),
        decreases b.len() - i,
    {
        out.push(b[i]);
        proof {
            assert(out@ =~= b@.take(i + 1));
        }
        i = i + 1;
    }
    proof {
        assert(b@.take(b@.len() as int) =~= b@);
    }
    out
}

fn entry_name_keys(entries: &Vec<EntryInfo>) -> (res: Vec<Vec<u8>>)
    ensures
        res@.map_values(|k: Vec<u8>| k@) == entry_keys(entries@),
{
    let mut out: Vec<Vec<u8>> = Vec::new();
    let mut i: usize = 0;
    while i < entries.len()
        invariant
            i <= entries@.len(),
            out@.len() == i,
            forall|j: int| 0 <= j < i ==> (#[trigger] out@[j])@ == entries@[j].name_bytes@,
        decreases entries.len() - i,
    {
        out.push(copy_bytes(&entries[i].name_bytes));
        i = i + 1;
    }
    proof {
        assert(out@.map_values(|k: Vec<u8>| k@) =~= entry_keys(entries@));
    }
    out
}

fn listed_order(entries: &Vec<EntryInfo>, all: bool) -> (res: Vec<usize>)
    ensures
        res@ == listing_order(entry_names(entries@), entry_keys(entries@), all),
        forall|j: int| 0 <= j < res@.len() ==> #[trigger] res@[j] < entries@.len(),
{
    let names = entry_name_chars(entries);
    let keys = entry_name_keys(entries);
    proof {
        assert(names@.len() == names@.map_values(|n: Vec<char>| n@).len());
        assert(keys@.len() == keys@.map_values(|k: Vec<u8>| k@).len());
    }
    let order = listing_order_of(&names, &keys, all);
    proof {
        crate::order::lemma_listing_order(entry_names(entries@), entry_keys(entries@), all);
    }
    order
}

/// The short listing of the entries at `order`.
fn render_short(entries: &Vec<EntryInfo>, order: &Vec<usize>, classify: bool) -> (res: String)
    requires
        forall|j: int| 0 <= j < order@.len() ==> #[trigger] order@[j] < entries@.len(),
    ensures
        res@ == short_listing(entries@, order@, classify),
{
    let mut out = String::new();
    let mut i: usize = 0;
    while i < order.len()
        invariant
            i <= order@.len(),
            forall|j: int| 0 <= j < order@.len() ==> #[trigger] order@[j] < entries@.len(),
            out@ == short_items(entries@, order@.take(i as int), classify),
        decreases order.len() - i,
    {
        let e = &entries[order[i]];
        push_str(&mut out, &e.name);
        if classify {
            match &e.meta {
                Some(m) => push_suffix(&mut out, m),
                None => {},
            }
        }
        push_char(&mut out, ' ');
        push_char(&mut out, ' ');
        proof {
            assert(order@.take(i + 1).drop_last() =~= order@.take(i as int));
            assert(order@.take(i + 1).last() == order@[i as int]);
            assert(out@ =~= short_items(entries@, order@.take(i + 1), classify));
        }
        i = i + 1;
    }
    if order.len() > 0 {
        push_char(&mut out, '\n');
    }
    proof {
        assert(order@.take(order@.len() as int) =~= order@);
    }
    out
}

/// The long listing of the entries at `order`.
fn render_long(entries: &Vec<EntryInfo>, order: &Vec<usize>, classify: bool) -> (res: String)
    requires
        forall|j: int| 0 <= j < order@.len() ==> #[trigger] order@[j] < entries@.len(),
        blocks_fit(entries@, order@),
    ensures
        res@ == long_listing(entries@, order@, classify),
{
    let mut total: u64 = 0;
    let mut i: usize = 0;
    while i < order.len()
        invariant
            i <= order@.len(),
            forall|j: int| 0 <= j < order@.len() ==> #[trigger] order@[j] < entries@.len(),
            blocks_fit(entries@, order@),
            total == total_blocks(entries@, order@.take(i as int)),
        decreases order.len() - i,
    {
        proof {
            assert(order@.take(i + 1).drop_last() =~= order@.take(i as int));
            assert(order@.take(i + 1).last() == order@[i as int]);
            lemma_total_blocks_prefix(entries@, order@, i + 1);
        }
        match &entries[order[i]].meta {
            Some(m) => {
                proof {
                    assert(entries@[order@[i as int] as int].meta is Some);
                }
                total = total + file_size_blocks(m.size);
            },
            None => {},
        }
        i = i + 1;
    }
    proof {
        assert(order@.take(order@.len() as int) =~= order@);
    }
    let mut out = String::from_str("total ");
    proof {
        reveal_strlit("total ");
        assert(out@ =~= seq!['t', 'o', 't', 'a', 'l', ' ']);
    }
    push_str(&mut out, &decimal_string(total));
    push_char(&mut out, '\n');
    let ghost head = out@;
    let mut i: usize = 0;
    while i < order.len()
        invariant
            i <= order@.len(),
            forall|j: int| 0 <= j < order@.len() ==> #[trigger] order@[j] < entries@.len(),
            out@ == head + long_lines(entries@, order@.take(i as int), classify),
        decreases order.len() - i,
    {
        let e = &entries[order[i]];
        proof {
            assert(order@.take(i + 1).drop_last() =~= order@.take(i as int));
            assert(order@.take(i + 1).last() == order@[i as int]);
        }
        match &e.meta {
            Some(m) => {
                push_str(&mut out, &long_line_string(&e.name, m, classify));
            },
            None => {},
        }
        proof {
            assert(out@ =~= head + long_lines(entries@, order@.take(i + 1), classify));
        }
        i = i + 1;
    }
    proof {
        assert(order@.take(order@.len() as int) =~= order@);
        assert(out@ =~= long_listing(entries@, order@, classify));
    }
    out
}

/// What `ls` with arguments `args` prints for a directory holding
/// `entries` (in any order, as the directory yields them).
pub fn ls_output(args: &[&str], entries: &Vec<EntryInfo>) -> (res: String)
    requires
        ls_renderable(views_of_strs(args@), entries@),
    ensures
        res@ == ls_text(views_of_strs(args@), entries@),
{
    let opts = parse_ls_args(args);
    let order = listed_order(entries, opts.all);
    if opts.long {
        render_long(entries, &order, opts.classify)
    } else {
        render_short(entries, &order, opts.classify)
    }
}

/// Whether `ls_output` can render `entries` for `args`: false exactly when a
/// long listing's block counts do not fit in 64 bits.
pub fn ls_can_render(args: &[&str], entries: &Vec<EntryInfo>) -> (res: bool)
    ensures
        res == ls_renderable(views_of_strs(args@), entries@),
{
    let opts = parse_ls_args(args);
    if !opts.long {
        return true;
    }
    let order = listed_order(entries, opts.all);
    let mut total: u64 = 0;
    let mut i: usize = 0;
    while i < order.len()
        invariant
            i <= order@.len(),
            forall|j: int| 0 <= j < order@.len() ==> #[trigger] order@[j] < entries@.len(),
            total == total_blocks(entries@, order@.take(i as int)),
            order@ == ls_order(views_of_strs(args@), entries@),
            ls_options(views_of_strs(args@)).long,
            forall|j: int|
                0 <= j < i && (#[trigger] entries@[order@[j] as int]).meta is Some
                    ==> entries@[order@[j] as int].meta->Some_0.size + 511 <= u64::MAX,
        decreases order.len() - i,
    {
        proof {
            assert(order@.take(i + 1).drop_last() =~= order@.take(i as int));
            assert(order@.take(i + 1).last() == order@[i as int]);
            lemma_total_blocks_prefix(entries@, order@, i + 1);
        }
        match &entries[order[i]].meta {
            Some(m) => {
                if m.size > u64::MAX - 511 {
                    proof {
                        assert(entries@[order@[i as int] as int].meta is Some);
                        assert(!blocks_fit(entries@, order@));
                    }
                    return false;
                }
                let b = file_size_blocks(m.size);
                if b > u64::MAX - total {
                    proof {
                        assert(order@.take(i + 1).len() == i + 1);
                        assert(total_blocks(entries@, order@.take(i + 1)) == total + b);
                    }
                    return false;
                }
                total = total + b;
            },
            None => {},
        }
        i = i + 1;
    }
    proof {
        assert(order@.take(order@.len() as int) =~= order@);
    }
    true
}

/// The date column starts with the month of the moment, by the usual
/// English abbreviations in calendar order (month 0 is January); every
/// calendar time has a month below 12.
pub proof fn lemma_date_month_column(t: CivilTime)
    requires
        t.month < 12,
    ensures
        date_text(t).take(3) == seq![
            seq!['J', 'a', 'n'],
            seq!['F', 'e', 'b'],
            seq!['M', 'a', 'r'],
            seq!['A', 'p', 'r'],
            seq!['M', 'a', 'y'],
            seq!['J', 'u', 'n'],
            seq!['J', 'u', 'l'],
            seq!['A', 'u', 'g'],
            seq!['S', 'e', 'p'],
            seq!['O', 'c', 't'],
            seq!['N', 'o', 'v'],
            seq!['D', 'e', 'c'],
        ][t.month as int],
{
    assert(date_text(t).take(3) =~= month_abbrev(t.month as int));
}

/// Thirty days hath September, April, June and November; February has
/// fewer; all the rest have thirty-one.
pub proof fn lemma_month_names_match_lengths(m: int, is_leap: bool)
    requires
        0 <= m < 12,
    ensures
        month_length(m, is_leap) == 30 <==> (month_abbrev(m) == seq!['S', 'e', 'p'] || month_abbrev(m)
            == seq!['A', 'p', 'r'] || month_abbrev(m) == seq!['J', 'u', 'n'] || month_abbrev(m)
            == seq!['N', 'o', 'v']),
        month_length(m, is_leap) < 30 <==> month_abbrev(m) == seq!['F', 'e', 'b'],
        month_length(m, is_leap) == 31 <==> (month_abbrev(m) == seq!['J', 'a', 'n'] || month_abbrev(
            m,
        ) == seq!['M', 'a', 'r'] || month_abbrev(m) == seq!['M', 'a', 'y'] || month_abbrev(m)
            == seq!['J', 'u', 'l'] || month_abbrev(m) == seq!['A', 'u', 'g'] || month_abbrev(m)
            == seq!['O', 'c', 't'] || month_abbrev(m) == seq!['D', 'e', 'c']),
{
}

} // verus!
