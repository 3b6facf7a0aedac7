//! Splitting a command line into words, honouring single and double quotes.

use vstd::prelude::*;
use crate::text::push_char;

verus! {

/// The tokenizer's state after reading a prefix of the line.
pub struct ScanState {
    pub words: Seq<Seq<char>>,
    pub current: Seq<char>,
    pub in_double: bool,
    pub in_single: bool,
}

pub open spec fn is_blank(c: char) -> bool {
    c == ' ' || c == '\t'
}

pub open spec fn initial_state() -> ScanState {
    ScanState { words: Seq::empty(), current: Seq::empty(), in_double: false, in_single: false }
}

/// One character of input. A blank outside quotes ends the current word
/// (if any); a quote that is not inside the other kind of quote opens a
/// quoted span, or closes it and ends the word (even when it is empty);
/// every other character is added to the current word.
pub open spec fn step(st: ScanState, c: char) -> ScanState {
    if is_blank(c) && !st.in_double && !st.in_single {
        if st.current.len() != 0 {
            ScanState { words: st.words.push(st.current), current: Seq::empty(), ..st }
        } else {
            st
        }
    } else if c == '"' && !st.in_single {
        if st.in_double {
            ScanState {
                words: st.words.push(st.current),
                current: Seq::empty(),
                in_double: false,
                ..st
            }
        } else {
            ScanState { in_double: true, ..st }
        }
    } else if c == '\'' && !st.in_double {
        if st.in_single {
            ScanState {
                words: st.words.push(st.current),
                current: Seq::empty(),
                in_single: false,
                ..st
            }
        } else {
            ScanState { in_single: true, ..st }
        }
    } else {
        ScanState { current: st.current.push(c), ..st }
    }
}

/// The state after reading all of `s`, starting from `st`.
pub open spec fn run(st: ScanState, s: Seq<char>) -> ScanState
    decreases s.len(),
{
    if s.len() == 0 {
        st
    } else {
        step(run(st, s.drop_last()), s.last())
    }
}

/// The words of a line, or `Err(())` when a quote is left open.
pub open spec fn spec_parse_line(s: Seq<char>) -> Result<Seq<Seq<char>>, ()> {
    let fin = run(initial_state(), s);
    if fin.in_double || fin.in_single {
        Err(())
    } else if fin.current.len() != 0 {
        Ok(fin.words.push(fin.current))
    } else {
        Ok(fin.words)
    }
}

/// Split a line into tokens, respecting single- and double-quoted spans
/// (basic shell-like). Does not implement escapes, globs, or redirection.
pub fn parse_line(line: &str) -> (res: Result<Vec<String>, String>)
    ensures
        match spec_parse_line(line@) {
            Ok(ws) => res is Ok && crate::text::views_of_strings(res->Ok_0@) == ws,
            Err(_) => res is Err && res->Err_0@ == "unclosed quote"@,
        },
{
    let mut out: Vec<String> = Vec::new();
    let mut cur = String::new();
    let mut in_dq = false;
    let mut in_sq = false;
    let n = line.unicode_len();
    let ghost s = line@;

    let mut i: usize = 0;
    while i < n
        invariant
            n == s.len(),
            s == line@,
            i <= n,
            ({
                let st = run(initial_state(), s.take(i as int));
                &&& crate::text::views_of_strings(out@) == st.words
                &&& cur@ == st.current
                &&& in_dq == st.in_double
                &&& in_sq == st.in_single
            }),
        decreases n - i,
    {
        let ch = line.get_char(i);
        proof {
            assert(s.take(i + 1).drop_last() =~= s.take(i as int));
            assert(s.take(i + 1).last() == ch);
        }
        if (ch == ' ' || ch == '\t') && !in_dq && !in_sq {
            if cur.unicode_len() != 0 {
                out.push(cur);
                cur = String::new();
            }
        } else if ch == '"' && !in_sq {
            if in_dq {
                out.push(cur);
                cur = String::new();
                in_dq = false;
            } else {
                in_dq = true;
            }
        } else if ch == '\'' && !in_dq {
            if in_sq {
                out.push(cur);
                cur = String::new();
                in_sq = false;
            } else {
                in_sq = true;
            }
        } else {
            push_char(&mut cur, ch);
        }
        proof {
            assert(crate::text::views_of_strings(out@) =~= run(initial_state(), s.take(i + 1)).words);
        }
        i = i + 1;
    }
    proof {
        assert(s.take(n as int) =~= s);
    }
    if in_dq || in_sq {
        return Err(String::from_str("unclosed quote"));
    }
    if cur.unicode_len() != 0 {
        out.push(cur);
        proof {
            assert(crate::text::views_of_strings(out@) =~= run(initial_state(), s).words.push(
                run(initial_state(), s).current,
            ));
        }
    }
    Ok(out)
}

/// A character that neither separates words nor opens or closes a quote.
pub open spec fn is_plain(c: char) -> bool {
    !is_blank(c) && c != '"' && c != '\''
}

/// Reading `a` then `b` is reading `a + b`.
pub proof fn lemma_run_append(st: ScanState, a: Seq<char>, b: Seq<char>)
    ensures
        run(st, a + b) == run(run(st, a), b),
    decreases b.len(),
{
    if b.len() == 0 {
        assert(a + b =~= a);
    } else {
        assert((a + b).drop_last() =~= a + b.drop_last());
        assert((a + b).last() == b.last());
        lemma_run_append(st, a, b.drop_last());
    }
}

/// Reading one character is one step.
pub proof fn lemma_run_single(st: ScanState, c: char)
    ensures
        run(st, seq![c]) == step(st, c),
{
    assert(seq![c].drop_last() =~= Seq::<char>::empty());
    assert(run(st, Seq::<char>::empty()) == st);
}

/// Outside quotes, plain characters only grow the current word.
proof fn lemma_run_plain(st: ScanState, w: Seq<char>)
    requires
        !st.in_double,
        !st.in_single,
        forall|i: int| 0 <= i < w.len() ==> is_plain(#[trigger] w[i]),
    ensures
        run(st, w) == (ScanState { current: st.current + w, ..st }),
    decreases w.len(),
{
    if w.len() == 0 {
        assert(st.current + w =~= st.current);
    } else {
        lemma_run_plain(st, w.drop_last());
        assert(is_plain(w[w.len() - 1]));
        assert((st.current + w.drop_last()).push(w.last()) =~= st.current + w);
    }
}

/// Inside a quoted span, every character other than the closing quote is
/// taken literally, blanks and the other kind of quote included.
proof fn lemma_run_quoted(st: ScanState, q: char, t: Seq<char>)
    requires
        q == '"' ==> st.in_double && !st.in_single,
        q == '\'' ==> st.in_single && !st.in_double,
        q == '"' || q == '\'',
        !t.contains(q),
    ensures
        run(st, t) == (ScanState { current: st.current + t, ..st }),
    decreases t.len(),
{
    if t.len() == 0 {
        assert(st.current + t =~= st.current);
    } else {
        assert(!t.drop_last().contains(q)) by {
            if t.drop_last().contains(q) {
                let k = choose|k: int| 0 <= k < t.drop_last().len() && t.drop_last()[k] == q;
                assert(t[k] == q);
            }
        }
        lemma_run_quoted(st, q, t.drop_last());
        assert(t[t.len() - 1] != q);
        assert((st.current + t.drop_last()).push(t.last()) =~= st.current + t);
    }
}

/// Blanks before a line change nothing.
pub proof fn lemma_parse_line_leading_blank(c: char, s: Seq<char>)
    requires
        is_blank(c),
    ensures
        spec_parse_line(seq![c] + s) == spec_parse_line(s),
{
    lemma_run_append(initial_state(), seq![c], s);
    lemma_run_single(initial_state(), c);
}

/// Blanks after a line change nothing: the line fails or succeeds alike, and
/// gives the same words.
pub proof fn lemma_parse_line_trailing_blank(s: Seq<char>, c: char)
    requires
        is_blank(c),
    ensures
        spec_parse_line(s.push(c)) == spec_parse_line(s),
{
    assert(s.push(c).drop_last() =~= s);
}

/// Plain words joined by single spaces are read back as the same words.
pub proof fn lemma_parse_line_join_roundtrip(ws: Seq<Seq<char>>)
    requires
        forall|i: int| 0 <= i < ws.len() ==> (#[trigger] ws[i]).len() != 0,
        forall|i: int, j: int|
            0 <= i < ws.len() && 0 <= j < ws[i].len() ==> is_plain(#[trigger] ws[i][j]),
    ensures
        spec_parse_line(crate::text::join_with(ws, seq![' '])) == Ok::<Seq<Seq<char>>, ()>(ws),
{
    if ws.len() == 0 {
        assert(run(initial_state(), Seq::<char>::empty()) == initial_state());
        assert(ws =~= Seq::<Seq<char>>::empty());
    } else {
        lemma_run_joined(ws);
        assert(ws.drop_last().push(ws.last()) =~= ws);
    }
}

proof fn lemma_run_joined(ws: Seq<Seq<char>>)
    requires
        ws.len() != 0,
        forall|i: int| 0 <= i < ws.len() ==> (#[trigger] ws[i]).len() != 0,
        forall|i: int, j: int|
            0 <= i < ws.len() && 0 <= j < ws[i].len() ==> is_plain(#[trigger] ws[i][j]),
    ensures
        run(initial_state(), crate::text::join_with(ws, seq![' '])) == (ScanState {
            words: ws.drop_last(),
            current: ws.last(),
            in_double: false,
            in_single: false,
        }),
    decreases ws.len(),
{
    let w = ws.last();
    assert forall|j: int| 0 <= j < w.len() implies is_plain(#[trigger] w[j]) by {
        assert(is_plain(ws[ws.len() - 1][j]));
    }
    if ws.len() == 1 {
        lemma_run_plain(initial_state(), ws[0]);
        assert(Seq::<char>::empty() + ws[0] =~= ws[0]);
        assert(ws.drop_last() =~= Seq::<Seq<char>>::empty());
    } else {
        let d = ws.drop_last();
        assert forall|i: int| 0 <= i < d.len() implies (#[trigger] d[i]).len() != 0 by {
            assert(d[i] == ws[i]);
        }
        assert forall|i: int, j: int| 0 <= i < d.len() && 0 <= j < d[i].len() implies is_plain(
            #[trigger] d[i][j],
        ) by {
            assert(d[i] == ws[i]);
        }
        lemma_run_joined(d);
        let head = crate::text::join_with(d, seq![' ']);
        let mid = run(initial_state(), head + seq![' ']);
        lemma_run_append(initial_state(), head, seq![' ']);
        lemma_run_single(run(initial_state(), head), ' ');
        assert(d.drop_last().push(d.last()) =~= d);
        assert(mid == (ScanState {
            words: d,
            current: Seq::empty(),
            in_double: false,
            in_single: false,
        }));
        lemma_run_append(initial_state(), head + seq![' '], w);
        lemma_run_plain(mid, w);
        assert(Seq::<char>::empty() + w =~= w);
    }
}

/// A quoted span with no matching quote inside is one word, taken literally;
/// `""` and `''` give the empty word.
pub proof fn lemma_parse_line_quoted(q: char, t: Seq<char>)
    requires
        q == '"' || q == '\'',
        !t.contains(q),
    ensures
        spec_parse_line(seq![q] + t + seq![q]) == Ok::<Seq<Seq<char>>, ()>(seq![t]),
{
    let open = run(initial_state(), seq![q]);
    lemma_run_single(initial_state(), q);
    lemma_run_append(initial_state(), seq![q], t);
    lemma_run_quoted(open, q, t);
    assert(Seq::<char>::empty() + t =~= t);
    lemma_run_append(initial_state(), seq![q] + t, seq![q]);
    lemma_run_single(run(initial_state(), seq![q] + t), q);
    assert(Seq::<Seq<char>>::empty().push(t) =~= seq![t]);
}

/// A quote that is never closed makes the whole line fail.
pub proof fn lemma_parse_line_unclosed(q: char, t: Seq<char>)
    requires
        q == '"' || q == '\'',
        !t.contains(q),
    ensures
        spec_parse_line(seq![q] + t) is Err,
{
    let open = run(initial_state(), seq![q]);
    lemma_run_single(initial_state(), q);
    lemma_run_append(initial_state(), seq![q], t);
    lemma_run_quoted(open, q, t);
}

/// The state `st` with the words `w` read before it.
pub open spec fn after_words(w: Seq<Seq<char>>, st: ScanState) -> ScanState {
    ScanState { words: w + st.words, ..st }
}

/// Words read earlier do not change how the rest of a line is read.
proof fn lemma_run_after_words(w: Seq<Seq<char>>, st: ScanState, s: Seq<char>)
    ensures
        run(after_words(w, st), s) == after_words(w, run(st, s)),
    decreases s.len(),
{
    if s.len() != 0 {
        lemma_run_after_words(w, st, s.drop_last());
        let prev = run(st, s.drop_last());
        assert((w + prev.words).push(prev.current) =~= w + prev.words.push(prev.current));
    } else {
        assert(w + st.words =~= w + st.words);
    }
}

/// Two lines joined by a blank read as the words of the first followed by
/// the words of the second, when the first reads at all; the joined line
/// fails exactly when the second does.
pub proof fn lemma_parse_line_concat(a: Seq<char>, c: char, b: Seq<char>)
    requires
        is_blank(c),
        spec_parse_line(a) is Ok,
    ensures
        spec_parse_line(a + seq![c] + b) == (match spec_parse_line(b) {
            Ok(vb) => Ok::<Seq<Seq<char>>, ()>(spec_parse_line(a)->Ok_0 + vb),
            Err(_) => Err::<Seq<Seq<char>>, ()>(()),
        }),
{
    let va = spec_parse_line(a)->Ok_0;
    let fa = run(initial_state(), a);
    lemma_run_append(initial_state(), a, seq![c]);
    lemma_run_single(fa, c);
    let mid = run(initial_state(), a + seq![c]);
    assert(mid == after_words(va, initial_state())) by {
        assert(va + Seq::<Seq<char>>::empty() =~= va);
        assert(!fa.in_double && !fa.in_single);
        if fa.current.len() == 0 {
            assert(fa.current =~= Seq::<char>::empty());
        }
    }
    lemma_run_append(initial_state(), a + seq![c], b);
    lemma_run_after_words(va, initial_state(), b);
    let fb = run(initial_state(), b);
    assert((va + fb.words).push(fb.current) =~= va + fb.words.push(fb.current));
}

/// A word wrapped in double quotes.
pub open spec fn double_quoted(t: Seq<char>) -> Seq<char> {
    seq!['"'] + t + seq!['"']
}

/// Words without `"`, each wrapped in double quotes and joined by single
/// spaces, are read back as the same words (empty words and words holding
/// blanks or `'` included).
pub proof fn lemma_parse_line_quoted_roundtrip(ws: Seq<Seq<char>>)
    requires
        forall|i: int| 0 <= i < ws.len() ==> !(#[trigger] ws[i]).contains('"'),
    ensures
        spec_parse_line(
            crate::text::join_with(ws.map_values(|t: Seq<char>| double_quoted(t)), seq![' ']),
        ) == Ok::<Seq<Seq<char>>, ()>(ws),
    decreases ws.len(),
{
    let q = ws.map_values(|t: Seq<char>| double_quoted(t));
    if ws.len() == 0 {
        assert(run(initial_state(), Seq::<char>::empty()) == initial_state());
        assert(ws =~= Seq::<Seq<char>>::empty());
    } else if ws.len() == 1 {
        lemma_parse_line_quoted('"', ws[0]);
        assert(seq![ws[0]] =~= ws);
    } else {
        let d = ws.drop_last();
        let t = ws.last();
        assert forall|i: int| 0 <= i < d.len() implies !(#[trigger] d[i]).contains('"') by {
            assert(d[i] == ws[i]);
        }
        lemma_parse_line_quoted_roundtrip(d);
        assert(q.drop_last() =~= d.map_values(|t: Seq<char>| double_quoted(t)));
        let head = crate::text::join_with(q.drop_last(), seq![' ']);
        assert(!t.contains('"')) by {
            assert(t == ws[ws.len() - 1]);
        }
        lemma_parse_line_quoted('"', t);
        lemma_parse_line_concat(head, ' ', double_quoted(t));
        assert(q.last() == double_quoted(t));
        assert(head + seq![' '] + double_quoted(t) =~= crate::text::join_with(q, seq![' ']));
        assert(d + seq![t] =~= ws);
    }
}

/// Text and a quoted span written next to each other form one word: a
/// nonempty plain word `w` followed by `t` in quotes `q` (holding no `q`)
/// reads as the single word `w + t`.
pub proof fn lemma_parse_line_word_then_quoted(w: Seq<char>, q: char, t: Seq<char>)
    requires
        q == '"' || q == '\'',
        w.len() != 0,
        forall|i: int| 0 <= i < w.len() ==> is_plain(#[trigger] w[i]),
        !t.contains(q),
    ensures
        spec_parse_line(w + seq![q] + t + seq![q]) == Ok::<Seq<Seq<char>>, ()>(seq![w + t]),
{
    let st0 = initial_state();
    lemma_run_plain(st0, w);
    let sw = run(st0, w);
    assert(Seq::<char>::empty() + w =~= w);
    lemma_run_append(st0, w, seq![q]);
    lemma_run_single(sw, q);
    let sq = run(st0, w + seq![q]);
    lemma_run_append(st0, w + seq![q], t);
    lemma_run_quoted(sq, q, t);
    let st = run(st0, w + seq![q] + t);
    lemma_run_append(st0, w + seq![q] + t, seq![q]);
    lemma_run_single(st, q);
    assert(Seq::<Seq<char>>::empty().push(w + t) =~= seq![w + t]);
}

/// A closing quote ends the word: `t` in quotes `q` followed directly by a
/// nonempty plain word `w` reads as the two words `t` and `w`.
pub proof fn lemma_parse_line_quoted_then_word(q: char, t: Seq<char>, w: Seq<char>)
    requires
        q == '"' || q == '\'',
        w.len() != 0,
        forall|i: int| 0 <= i < w.len() ==> is_plain(#[trigger] w[i]),
        !t.contains(q),
    ensures
        spec_parse_line(seq![q] + t + seq![q] + w) == Ok::<Seq<Seq<char>>, ()>(seq![t, w]),
{
    let st0 = initial_state();
    let open = run(st0, seq![q]);
    lemma_run_single(st0, q);
    lemma_run_append(st0, seq![q], t);
    lemma_run_quoted(open, q, t);
    assert(Seq::<char>::empty() + t =~= t);
    let st = run(st0, seq![q] + t);
    lemma_run_append(st0, seq![q] + t, seq![q]);
    lemma_run_single(st, q);
    let closed = run(st0, seq![q] + t + seq![q]);
    lemma_run_append(st0, seq![q] + t + seq![q], w);
    lemma_run_plain(closed, w);
    assert(Seq::<char>::empty() + w =~= w);
    assert(Seq::<Seq<char>>::empty().push(t).push(w) =~= seq![t, w]);
}

} // verus!
