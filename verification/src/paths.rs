//! Paths as text: resolving an argument against the current directory and
//! taking the last component of a path. These are Unix path rules: `/` is the
//! only separator and only a leading `/` makes a path absolute (a leading
//! backslash, absolute on Windows, is an ordinary character here).

use vstd::prelude::*;
use crate::text::push_char;

verus! {

pub open spec fn starts_with_char(s: Seq<char>, c: char) -> bool {
    s.len() != 0 && s[0] == c
}

/// Whether `s` begins with `c`.
pub fn starts_with(s: &str, c: char) -> (res: bool)
    ensures
        res == starts_with_char(s@, c),
{
    s.unicode_len() != 0 && s.get_char(0) == c
}

/// `path` taken relative to `base` (Unix rules): a path starting with `/`
/// stands for itself;
/// otherwise it follows `base`, with a `/` between them unless `base` is
/// empty or already ends in one.
pub open spec fn join_path(base: Seq<char>, path: Seq<char>) -> Seq<char> {
    if starts_with_char(path, '/') {
        path
    } else if base.len() == 0 || base.last() == '/' {
        base + path
    } else {
        base + seq!['/'] + path
    }
}

/// The path that `path` names when the current directory is `current_dir`,
/// by Unix path rules.
pub fn resolve_path(current_dir: &str, path: &str) -> (res: String)
    ensures
        res@ == join_path(current_dir@, path@),
        starts_with_char(path@, '/') ==> res@ == path@,
{
    if starts_with(path, '/') {
        return String::from_str(path);
    }
    let n = current_dir.unicode_len();
    let mut out = String::from_str(current_dir);
    if n != 0 && current_dir.get_char(n - 1) != '/' {
        push_char(&mut out, '/');
    }
    out.append(path);
    proof {
        if n != 0 {
            assert(current_dir@.last() == current_dir@[n - 1]);
        }
    }
    out
}

/// Index just after the last `/` of `p` (0 when there is none).
pub open spec fn segment_start(p: Seq<char>) -> int
    decreases p.len(),
{
    if p.len() == 0 {
        0
    } else if p.last() == '/' {
        p.len() as int
    } else {
        segment_start(p.drop_last())
    }
}

/// The last component of a path: trailing slashes and `.` components are
/// skipped; a final `..`, a bare root or an empty path has none.
pub open spec fn file_name(p: Seq<char>) -> Option<Seq<char>>
    decreases p.len(),
{
    if p.len() == 0 {
        None
    } else if p.last() == '/' {
        file_name(p.drop_last())
    } else {
        proof {
            lemma_segment_start_bounds(p);
        }
        let start = segment_start(p);
        let seg = p.subrange(start, p.len() as int);
        if seg =~= seq!['.'] {
            file_name(p.subrange(0, start))
        } else if seg =~= seq!['.', '.'] {
            None
        } else {
            Some(seg)
        }
    }
}

/// Where the last segment of a path starts, and that it holds no `/`.
pub proof fn lemma_segment_start_bounds(p: Seq<char>)
    ensures
        0 <= segment_start(p) <= p.len(),
        segment_start(p) > 0 ==> p[segment_start(p) - 1] == '/',
        forall|i: int| segment_start(p) <= i < p.len() ==> p[i] != '/',
        p.len() != 0 && p.last() != '/' ==> segment_start(p) < p.len(),
    decreases p.len(),
{
    if p.len() != 0 && p.last() != '/' {
        lemma_segment_start_bounds(p.drop_last());
        assert forall|i: int| segment_start(p) <= i < p.len() implies p[i] != '/' by {
            if i < p.len() - 1 {
                assert(p[i] == p.drop_last()[i]);
            }
        }
    }
}

proof fn lemma_segment_start_is(p: Seq<char>, k: int)
    requires
        0 <= k <= p.len(),
        k > 0 ==> p[k - 1] == '/',
        forall|i: int| k <= i < p.len() ==> p[i] != '/',
    ensures
        segment_start(p) == k,
    decreases p.len(),
{
    if p.len() != 0 && k < p.len() {
        assert(p.last() == p[p.len() - 1]);
        lemma_segment_start_is(p.drop_last(), k);
    }
}

fn string_of(c: &Vec<char>, from: usize, to: usize) -> (res: String)
    requires
        from <= to <= c@.len(),
    ensures
        res@ == c@.subrange(from as int, to as int),
{
    let mut out = String::new();
    let mut i = from;
    while i < to
        invariant
            from <= i <= to,
            to <= c@.len(),
            out@ == c@.subrange(from as int, i as int),
        decreases to - i,
    {
        push_char(&mut out, c[i]);
        proof {
            assert(out@ =~= c@.subrange(from as int, i + 1));
        }
        i = i + 1;
    }
    out
}

/// The last component of `path`, if it has one.
pub fn path_file_name(path: &str) -> (res: Option<String>)
    ensures
        match file_name(path@) {
            Some(n) => res is Some && res->Some_0@ == n,
            None => res is None,
        },
{
    let c = crate::order::chars_of(path);
    let mut end = c.len();
    proof {
        assert(c@.subrange(0, end as int) =~= path@);
    }
    loop
        invariant
            end <= c@.len(),
            c@ == path@,
            file_name(c@.subrange(0, end as int)) == file_name(path@),
        decreases end,
    {
        let ghost p = c@.subrange(0, end as int);
        if end == 0 {
            return None;
        }
        if c[end - 1] == '/' {
            proof {
                assert(p.drop_last() =~= c@.subrange(0, end - 1));
            }
            end = end - 1;
        } else {
            let mut start = end;
            while start > 0 && c[start - 1] != '/'
                invariant
                    start <= end,
                    end <= c@.len(),
                    forall|i: int| start <= i < end ==> c@[i] != '/',
                decreases start,
            {
                start = start - 1;
            }
            proof {
                lemma_segment_start_is(p, start as int);
                assert(p.subrange(start as int, p.len() as int) =~= c@.subrange(
                    start as int,
                    end as int,
                ));
                assert(p.subrange(0, start as int) =~= c@.subrange(0, start as int));
            }
            let len = end - start;
            if len == 1 && c[start] == '.' {
                proof {
                    assert(c@.subrange(start as int, end as int) =~= seq!['.']);
                }
                end = start;
            } else if len == 2 && c[start] == '.' && c[start + 1] == '.' {
                proof {
                    assert(c@.subrange(start as int, end as int) =~= seq!['.', '.']);
                }
                return None;
            } else {
                proof {
                    let seg = c@.subrange(start as int, end as int);
                    if seg =~= seq!['.'] {
                        assert(seg[0] == c@[start as int]);
                    }
                    if seg =~= seq!['.', '.'] {
                        assert(seg[0] == c@[start as int]);
                        assert(seg[1] == c@[start + 1]);
                    }
                }
                return Some(string_of(&c, start, end));
            }
        }
    }
}

/// Placing a plain name inside a directory and taking the last component
/// gives the name back.
pub proof fn lemma_file_name_of_join(dir: Seq<char>, name: Seq<char>)
    requires
        name.len() != 0,
        !name.contains('/'),
        name != seq!['.'],
        name != seq!['.', '.'],
    ensures
        file_name(join_path(dir, name)) == Some(name),
{
    let p = join_path(dir, name);
    let k = p.len() - name.len();
    assert(!starts_with_char(name, '/')) by {
        if starts_with_char(name, '/') {
            assert(name.contains('/'));
        }
    }
    assert(p.subrange(k, p.len() as int) =~= name);
    assert forall|i: int| k <= i < p.len() implies p[i] != '/' by {
        assert(p[i] == name[i - k]);
        if p[i] == '/' {
            assert(name.contains('/'));
        }
    }
    if k > 0 {
        if dir.len() != 0 && dir.last() == '/' {
            assert(p[k - 1] == dir.last());
        } else {
            assert(p[k - 1] == '/');
        }
    }
    lemma_segment_start_is(p, k);
    assert(p.last() == name.last());
    assert(name.last() != '/') by {
        if name.last() == '/' {
            assert(name.contains('/'));
        }
    }
}

/// A last component is a plain name: not empty, without `/`, and neither
/// `.` nor `..`.
pub proof fn lemma_file_name_is_plain(p: Seq<char>)
    ensures
        file_name(p) matches Some(n) ==> (n.len() != 0 && !n.contains('/') && n != seq!['.']
            && n != seq!['.', '.']),
    decreases p.len(),
{
    if p.len() != 0 {
        if p.last() == '/' {
            lemma_file_name_is_plain(p.drop_last());
        } else {
            lemma_segment_start_bounds(p);
            let start = segment_start(p);
            let seg = p.subrange(start, p.len() as int);
            if seg =~= seq!['.'] {
                lemma_file_name_is_plain(p.subrange(0, start));
            } else if !(seg =~= seq!['.', '.']) {
                assert(seg.len() != 0);
                assert(!seg.contains('/')) by {
                    if seg.contains('/') {
                        let k = choose|k: int| 0 <= k < seg.len() && seg[k] == '/';
                        assert(p[start + k] == '/');
                    }
                }
                if seg == seq!['.'] {
                    assert(seg =~= seq!['.']);
                }
                if seg == seq!['.', '.'] {
                    assert(seg =~= seq!['.', '.']);
                }
            }
        }
    }
}

} // verus!
