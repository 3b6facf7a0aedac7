//! The order in which `ls` shows directory entries: hidden names dropped
//! unless asked for, the rest sorted by name, stably.

use vstd::prelude::*;

verus! {

broadcast use vstd::seq_lib::group_to_multiset_ensures;

/// Strict lexicographic order on names as raw bytes (the order of file
/// names as the operating system stores them).
pub open spec fn name_lt(a: Seq<u8>, b: Seq<u8>) -> bool
    decreases a.len(),
{
    if a.len() == 0 {
        b.len() != 0
    } else if b.len() == 0 {
        false
    } else if a[0] != b[0] {
        (a[0] as int) < (b[0] as int)
    } else {
        name_lt(a.drop_first(), b.drop_first())
    }
}

/// A name that starts with a dot is hidden.
pub open spec fn is_hidden(name: Seq<char>) -> bool {
    name.len() != 0 && name[0] == '.'
}

/// Inserts entry `x` into `order` before the first entry whose name is
/// greater than `x`'s, that is after every entry with a name not greater.
pub open spec fn insert_by_name(keys: Seq<Seq<u8>>, order: Seq<usize>, x: usize) -> Seq<usize>
    decreases order.len(),
{
    if order.len() == 0 {
        seq![x]
    } else if name_lt(keys[x as int], keys[order[0] as int]) {
        seq![x] + order
    } else {
        seq![order[0]] + insert_by_name(keys, order.drop_first(), x)
    }
}

/// The stable sort of `idx` by the names in `keys`.
pub open spec fn sort_by_name(keys: Seq<Seq<u8>>, idx: Seq<usize>) -> Seq<usize>
    decreases idx.len(),
{
    if idx.len() == 0 {
        Seq::empty()
    } else {
        insert_by_name(keys, sort_by_name(keys, idx.drop_last()), idx.last())
    }
}

/// The indices below `n`, in increasing order, of the names that are shown:
/// all of them, or only those that are not hidden.
pub open spec fn shown_indices(names: Seq<Seq<char>>, show_all: bool, n: nat) -> Seq<usize>
    decreases n,
{
    if n == 0 {
        Seq::empty()
    } else {
        let rest = shown_indices(names, show_all, (n - 1) as nat);
        if show_all || !is_hidden(names[n - 1]) {
            rest.push((n - 1) as usize)
        } else {
            rest
        }
    }
}

/// The order in which entries are listed: those shown (by their names as
/// text), sorted by their names as bytes.
pub open spec fn listing_order(names: Seq<Seq<char>>, keys: Seq<Seq<u8>>, show_all: bool) -> Seq<
    usize,
> {
    sort_by_name(keys, shown_indices(names, show_all, names.len()))
}

/// The characters of a string, one by one.
pub fn chars_of(s: &str) -> (res: Vec<char>)
    ensures
        res@ == s@,
{
    let n = s.unicode_len();
    let mut out: Vec<char> = Vec::new();
    let mut i: usize = 0;
    while i < n
        invariant
            n == s@.len(),
            i <= n,
            out@ == s@.take(i as int),
        decreases n - i,
    {
        out.push(s.get_char(i));
        proof {
            assert(out@ =~= s@.take(i + 1));
        }
        i = i + 1;
    }
    proof {
        assert(s@.take(n as int) =~= s@);
    }
    out
}

/// Whether the name with bytes `a` sorts strictly before the one with bytes `b`.
pub fn name_less(a: &Vec<u8>, b: &Vec<u8>) -> (res: bool)
    ensures
        res == name_lt(a@, b@),
{
    let mut i: usize = 0;
    proof {
        assert(a@.skip(0) =~= a@);
        assert(b@.skip(0) =~= b@);
    }
    while i < a.len() && i < b.len()
        invariant
            i <= a@.len(),
            i <= b@.len(),
            name_lt(a@, b@) == name_lt(a@.skip(i as int), b@.skip(i as int)),
        decreases a.len() - i,
    {
        if a[i] != b[i] {
            return a[i] < b[i];
        }
        proof {
            assert(a@.skip(i as int).drop_first() =~= a@.skip(i + 1));
            assert(b@.skip(i as int).drop_first() =~= b@.skip(i + 1));
        }
        i = i + 1;
    }
    i < b.len()
}

proof fn lemma_insert_by_name_is_insert(keys: Seq<Seq<u8>>, order: Seq<usize>, x: usize, k: int)
    requires
        0 <= k <= order.len(),
        forall|j: int| 0 <= j < k ==> !name_lt(keys[x as int], keys[#[trigger] order[j] as int]),
        k < order.len() ==> name_lt(keys[x as int], keys[order[k] as int]),
    ensures
        insert_by_name(keys, order, x) == order.insert(k, x),
    decreases order.len(),
{
    if order.len() == 0 {
        assert(order.insert(k, x) =~= seq![x]);
    } else if k == 0 {
        assert(order.insert(k, x) =~= seq![x] + order);
    } else {
        let rest = order.drop_first();
        assert forall|j: int| 0 <= j < k - 1 implies !name_lt(
            keys[x as int],
            keys[#[trigger] rest[j] as int],
        ) by {
            assert(rest[j] == order[j + 1]);
        }
        assert(!name_lt(keys[x as int], keys[order[0] as int]));
        lemma_insert_by_name_is_insert(keys, rest, x, k - 1);
        assert(order.insert(k, x) =~= seq![order[0]] + rest.insert(k - 1, x));
    }
}

/// The listing order of entries whose names are `names` as text and `keys`
/// as bytes: the shown entries (hidden ones, by their text, dropped unless
/// `show_all`), stably sorted by their bytes.
pub fn listing_order_of(names: &Vec<Vec<char>>, keys: &Vec<Vec<u8>>, show_all: bool) -> (res: Vec<
    usize,
>)
    requires
        names@.len() == keys@.len(),
    ensures
        res@ == listing_order(
            names@.map_values(|n: Vec<char>| n@),
            keys@.map_values(|k: Vec<u8>| k@),
            show_all,
        ),
{
    let ghost nv = names@.map_values(|n: Vec<char>| n@);
    let ghost kv = keys@.map_values(|k: Vec<u8>| k@);
    let n = names.len();
    let mut order: Vec<usize> = Vec::new();
    let mut i: usize = 0;
    while i < n
        invariant
            n == names@.len(),
            n == keys@.len(),
            nv == names@.map_values(|n: Vec<char>| n@),
            kv == keys@.map_values(|k: Vec<u8>| k@),
            i <= n,
            order@ == sort_by_name(kv, shown_indices(nv, show_all, i as nat)),
            forall|j: int| 0 <= j < order@.len() ==> #[trigger] order@[j] < i,
        decreases n - i,
    {
        let shown = show_all || names[i].len() == 0 || names[i][0] != '.';
        proof {
            assert(nv[i as int] == names@[i as int]@);
            assert(shown == (show_all || !is_hidden(nv[i as int])));
        }
        if shown {
            let ghost before = order@;
            let mut k: usize = 0;
            while k < order.len() && !name_less(&keys[i], &keys[order[k]])
                invariant
                    order@ == before,
                    n == keys@.len(),
                    i < n,
                    kv == keys@.map_values(|k: Vec<u8>| k@),
                    k <= order@.len(),
                    forall|j: int| 0 <= j < order@.len() ==> #[trigger] order@[j] < i,
                    forall|j: int|
                        0 <= j < k ==> !name_lt(kv[i as int], kv[#[trigger] order@[j] as int]),
                decreases order.len() - k,
            {
                proof {
                    assert(kv[order@[k as int] as int] == keys@[order@[k as int] as int]@);
                }
                k = k + 1;
            }
            proof {
                assert(kv[i as int] == keys@[i as int]@);
                if k < order@.len() {
                    assert(kv[order@[k as int] as int] == keys@[order@[k as int] as int]@);
                }
                lemma_insert_by_name_is_insert(kv, before, i, k as int);
                let idx = shown_indices(nv, show_all, (i + 1) as nat);
                assert(idx == shown_indices(nv, show_all, i as nat).push(i));
                assert(idx.drop_last() =~= shown_indices(nv, show_all, i as nat));
            }
            order.insert(k, i);
        }
        proof {
            assert forall|j: int| 0 <= j < order@.len() implies #[trigger] order@[j] < i + 1 by {
            }
        }
        i = i + 1;
    }
    order
}

/// No name sorts before itself.
pub proof fn lemma_name_lt_irreflexive(a: Seq<u8>)
    ensures
        !name_lt(a, a),
    decreases a.len(),
{
    if a.len() != 0 {
        lemma_name_lt_irreflexive(a.drop_first());
    }
}

/// The name order is transitive.
pub proof fn lemma_name_lt_transitive(a: Seq<u8>, b: Seq<u8>, c: Seq<u8>)
    requires
        name_lt(a, b),
        name_lt(b, c),
    ensures
        name_lt(a, c),
    decreases a.len(),
{
    if a.len() != 0 && b.len() != 0 && c.len() != 0 {
        if a[0] == b[0] && b[0] == c[0] {
            lemma_name_lt_transitive(a.drop_first(), b.drop_first(), c.drop_first());
        }
    }
}

/// Of two different names, exactly one sorts first.
pub proof fn lemma_name_lt_total(a: Seq<u8>, b: Seq<u8>)
    ensures
        a != b ==> (name_lt(a, b) || name_lt(b, a)),
        !(name_lt(a, b) && name_lt(b, a)),
    decreases a.len(),
{
    if a.len() != 0 && b.len() != 0 {
        if a[0] == b[0] {
            lemma_name_lt_total(a.drop_first(), b.drop_first());
            if a != b {
                assert(a =~= seq![a[0]] + a.drop_first());
                assert(b =~= seq![b[0]] + b.drop_first());
            }
        } else {
            assert((a[0] as int) != (b[0] as int));
        }
    } else if a.len() == 0 && b.len() == 0 {
        assert(a =~= b);
    }
}

/// Whether `order` lists its entries in non-decreasing name order.
pub open spec fn sorted_by_name(keys: Seq<Seq<u8>>, order: Seq<usize>) -> bool {
    forall|i: int, j: int|
        0 <= i < j < order.len() ==> !name_lt(keys[#[trigger] order[j] as int], keys[#[trigger] order[i] as int])
}

/// Where `insert_by_name` puts the new entry.
spec fn first_greater(keys: Seq<Seq<u8>>, order: Seq<usize>, x: usize) -> int
    decreases order.len(),
{
    if order.len() == 0 {
        0
    } else if name_lt(keys[x as int], keys[order[0] as int]) {
        0
    } else {
        1 + first_greater(keys, order.drop_first(), x)
    }
}

proof fn lemma_first_greater(keys: Seq<Seq<u8>>, order: Seq<usize>, x: usize)
    ensures
        0 <= first_greater(keys, order, x) <= order.len(),
        forall|j: int|
            0 <= j < first_greater(keys, order, x) ==> !name_lt(
                keys[x as int],
                keys[#[trigger] order[j] as int],
            ),
        first_greater(keys, order, x) < order.len() ==> name_lt(
            keys[x as int],
            keys[order[first_greater(keys, order, x)] as int],
        ),
        insert_by_name(keys, order, x) == order.insert(first_greater(keys, order, x), x),
    decreases order.len(),
{
    if order.len() != 0 && !name_lt(keys[x as int], keys[order[0] as int]) {
        let rest = order.drop_first();
        lemma_first_greater(keys, rest, x);
        assert forall|j: int| 0 <= j < first_greater(keys, order, x) implies !name_lt(
            keys[x as int],
            keys[#[trigger] order[j] as int],
        ) by {
            if j > 0 {
                assert(order[j] == rest[j - 1]);
            }
        }
    }
    lemma_insert_by_name_is_insert(keys, order, x, first_greater(keys, order, x));
}

/// Inserting into a sorted order keeps it sorted.
proof fn lemma_insert_by_name_sorted(keys: Seq<Seq<u8>>, order: Seq<usize>, x: usize)
    requires
        sorted_by_name(keys, order),
        x < keys.len(),
        forall|j: int| 0 <= j < order.len() ==> #[trigger] order[j] < keys.len(),
    ensures
        sorted_by_name(keys, insert_by_name(keys, order, x)),
{
    lemma_first_greater(keys, order, x);
    let k = first_greater(keys, order, x);
    let r = order.insert(k, x);
    assert forall|i: int, j: int| 0 <= i < j < r.len() implies !name_lt(
        keys[#[trigger] r[j] as int],
        keys[#[trigger] r[i] as int],
    ) by {
        let kx = keys[x as int];
        if j < k {
            assert(r[i] == order[i] && r[j] == order[j]);
        } else if j == k {
            assert(r[j] == x && r[i] == order[i]);
            lemma_name_lt_total(kx, keys[order[i] as int]);
        } else if i > k {
            assert(r[i] == order[i - 1] && r[j] == order[j - 1]);
        } else if i == k {
            assert(r[i] == x && r[j] == order[j - 1]);
            let kk = keys[order[k] as int];
            let kj = keys[order[j - 1] as int];
            assert(name_lt(kx, kk));
            if j - 1 > k {
                assert(!name_lt(kj, kk));
                lemma_name_lt_total(kj, kk);
                if name_lt(kk, kj) {
                    lemma_name_lt_transitive(kx, kk, kj);
                }
            }
            lemma_name_lt_total(kx, kj);
        } else {
            assert(r[i] == order[i] && r[j] == order[j - 1]);
        }
    }
}

/// Sorting gives a sorted order.
proof fn lemma_sort_by_name_sorted(keys: Seq<Seq<u8>>, idx: Seq<usize>)
    requires
        forall|j: int| 0 <= j < idx.len() ==> #[trigger] idx[j] < keys.len(),
    ensures
        sorted_by_name(keys, sort_by_name(keys, idx)),
        sort_by_name(keys, idx).to_multiset() == idx.to_multiset(),
    decreases idx.len(),
{
    if idx.len() != 0 {
        let d = idx.drop_last();
        assert forall|j: int| 0 <= j < d.len() implies #[trigger] d[j] < keys.len() by {
            assert(d[j] == idx[j]);
        }
        lemma_sort_by_name_sorted(keys, d);
        let s = sort_by_name(keys, d);
        assert forall|j: int| 0 <= j < s.len() implies #[trigger] s[j] < keys.len() by {
            assert(s.to_multiset().count(s[j]) > 0);
            assert(d.to_multiset().count(s[j]) > 0);
            assert(d.contains(s[j]));
        }
        assert(idx.last() < keys.len()) by {
            assert(idx[idx.len() - 1] < keys.len());
        }
        lemma_insert_by_name_sorted(keys, s, idx.last());
        lemma_first_greater(keys, s, idx.last());
        assert(d.push(idx.last()) =~= idx);
    } else {
        assert(sort_by_name(keys, idx) =~= idx);
    }
}

/// Which indices are shown: exactly those below `n` that are not hidden, or
/// all of them with `show_all`; each once, in increasing order.
pub proof fn lemma_shown_indices(names: Seq<Seq<char>>, show_all: bool, n: nat)
    requires
        n <= names.len(),
        n <= usize::MAX,
    ensures
        forall|i: usize|
            i < n ==> (#[trigger] shown_indices(names, show_all, n).contains(i) <==> (show_all
                || !is_hidden(names[i as int]))),
        forall|j: int|
            0 <= j < shown_indices(names, show_all, n).len() ==> #[trigger] shown_indices(
                names,
                show_all,
                n,
            )[j] < n,
    decreases n,
{
    if n != 0 {
        lemma_shown_indices(names, show_all, (n - 1) as nat);
        let rest = shown_indices(names, show_all, (n - 1) as nat);
        let cur = shown_indices(names, show_all, n);
        let last = (n - 1) as usize;
        let shown_last = show_all || !is_hidden(names[n - 1]);
        assert(cur == (if shown_last { rest.push(last) } else { rest }));
        assert forall|i: usize| i < n implies (#[trigger] cur.contains(i) <==> (show_all
            || !is_hidden(names[i as int]))) by {
            if cur.contains(i) {
                let p = choose|p: int| 0 <= p < cur.len() && cur[p] == i;
                if p < rest.len() {
                    assert(cur[p] == rest[p]);
                    assert(rest.contains(i));
                    assert(rest[p] < n - 1);
                } else {
                    assert(i == last);
                }
            }
            if i < n - 1 {
                if rest.contains(i) {
                    let p = choose|p: int| 0 <= p < rest.len() && rest[p] == i;
                    assert(cur[p] == rest[p]);
                }
            } else {
                if shown_last {
                    assert(cur[rest.len() as int] == i);
                }
            }
        }
        assert forall|j: int| 0 <= j < cur.len() implies #[trigger] cur[j] < n by {
            if j < rest.len() {
                assert(cur[j] == rest[j]);
            }
        }
    }
}

/// What `ls` lists: every shown entry exactly once, hidden entries only with
/// `show_all`, in non-decreasing byte order of the names.
pub proof fn lemma_listing_order(names: Seq<Seq<char>>, keys: Seq<Seq<u8>>, show_all: bool)
    requires
        names.len() == keys.len(),
        keys.len() <= usize::MAX,
    ensures
        sorted_by_name(keys, listing_order(names, keys, show_all)),
        listing_order(names, keys, show_all).to_multiset() == shown_indices(
            names,
            show_all,
            names.len(),
        ).to_multiset(),
        forall|i: usize|
            i < keys.len() ==> (#[trigger] listing_order(names, keys, show_all).contains(i) <==> (
            show_all || !(names[i as int].len() != 0 && names[i as int][0] == '.'))),
        forall|j: int|
            0 <= j < listing_order(names, keys, show_all).len() ==> #[trigger] listing_order(
                names,
                keys,
                show_all,
            )[j] < keys.len(),
{
    let idx = shown_indices(names, show_all, names.len());
    lemma_shown_indices(names, show_all, names.len());
    lemma_sort_by_name_sorted(keys, idx);
    let o = listing_order(names, keys, show_all);
    assert forall|i: usize| i < keys.len() implies (#[trigger] o.contains(i) <==> (show_all
        || !is_hidden(names[i as int]))) by {
        assert(o.to_multiset().count(i) == idx.to_multiset().count(i));
        assert(idx.contains(i) == (show_all || !is_hidden(names[i as int])));
    }
    assert forall|j: int| 0 <= j < o.len() implies #[trigger] o[j] < keys.len() by {
        assert(o.to_multiset().count(o[j]) > 0);
        assert(idx.contains(o[j]));
    }
}

/// Whether entries with equal names keep their relative order.
pub open spec fn stable_by_name(keys: Seq<Seq<u8>>, order: Seq<usize>) -> bool {
    forall|p: int, q: int|
        0 <= p < q < order.len() && keys[order[p] as int] == keys[order[q] as int]
            ==> #[trigger] order[p] < #[trigger] order[q]
}

proof fn lemma_sort_by_name_stable(keys: Seq<Seq<u8>>, idx: Seq<usize>)
    requires
        forall|j: int| 0 <= j < idx.len() ==> #[trigger] idx[j] < keys.len(),
        forall|i: int, j: int| 0 <= i < j < idx.len() ==> #[trigger] idx[i] < #[trigger] idx[j],
    ensures
        stable_by_name(keys, sort_by_name(keys, idx)),
    decreases idx.len(),
{
    if idx.len() != 0 {
        let d = idx.drop_last();
        let x = idx.last();
        assert forall|j: int| 0 <= j < d.len() implies #[trigger] d[j] < keys.len() by {
            assert(d[j] == idx[j]);
        }
        assert forall|i: int, j: int| 0 <= i < j < d.len() implies #[trigger] d[i] < #[trigger] d[j] by {
            assert(d[i] == idx[i] && d[j] == idx[j]);
        }
        lemma_sort_by_name_stable(keys, d);
        lemma_sort_by_name_sorted(keys, d);
        let s = sort_by_name(keys, d);
        assert forall|j: int| 0 <= j < s.len() implies #[trigger] s[j] < x by {
            assert(s.to_multiset().count(s[j]) > 0);
            assert(d.to_multiset().count(s[j]) > 0);
            assert(d.contains(s[j]));
            let m = choose|m: int| 0 <= m < d.len() && d[m] == s[j];
            assert(idx[m] < idx[idx.len() - 1]);
        }
        lemma_first_greater(keys, s, x);
        let k = first_greater(keys, s, x);
        let r = s.insert(k, x);
        let kx = keys[x as int];
        assert forall|p: int, q: int|
            0 <= p < q < r.len() && keys[r[p] as int] == keys[r[q] as int] implies #[trigger] r[p]
            < #[trigger] r[q] by {
            if q < k {
                assert(r[p] == s[p] && r[q] == s[q]);
            } else if q == k {
                assert(r[p] == s[p]);
            } else if p > k {
                assert(r[p] == s[p - 1] && r[q] == s[q - 1]);
            } else if p == k {
                assert(r[p] == x && r[q] == s[q - 1]);
                let kk = keys[s[k] as int];
                let kq = keys[s[q - 1] as int];
                assert(name_lt(kx, kk));
                if q - 1 > k {
                    assert(!name_lt(kq, kk));
                    lemma_name_lt_total(kq, kk);
                    if name_lt(kk, kq) {
                        lemma_name_lt_transitive(kx, kk, kq);
                    }
                }
                lemma_name_lt_irreflexive(kx);
            } else {
                assert(r[p] == s[p] && r[q] == s[q - 1]);
            }
        }
        assert(d.push(x) =~= idx);
    }
}

proof fn lemma_shown_indices_increasing(names: Seq<Seq<char>>, show_all: bool, n: nat)
    requires
        n <= usize::MAX,
    ensures
        forall|i: int, j: int|
            0 <= i < j < shown_indices(names, show_all, n).len() ==> #[trigger] shown_indices(
                names,
                show_all,
                n,
            )[i] < #[trigger] shown_indices(names, show_all, n)[j],
        forall|j: int|
            0 <= j < shown_indices(names, show_all, n).len() ==> #[trigger] shown_indices(
                names,
                show_all,
                n,
            )[j] < n,
    decreases n,
{
    if n != 0 {
        lemma_shown_indices_increasing(names, show_all, (n - 1) as nat);
        let rest = shown_indices(names, show_all, (n - 1) as nat);
        let cur = shown_indices(names, show_all, n);
        assert forall|i: int, j: int| 0 <= i < j < cur.len() implies #[trigger] cur[i] < #[trigger] cur[j] by {
            assert(cur[i] == rest[i]);
            if j < rest.len() {
                assert(cur[j] == rest[j]);
            }
        }
        assert forall|j: int| 0 <= j < cur.len() implies #[trigger] cur[j] < n by {
            if j < rest.len() {
                assert(cur[j] == rest[j]);
            }
        }
    }
}

/// `ls` sorts stably: entries with equal names keep the order in which the
/// directory gave them.
pub proof fn lemma_listing_order_stable(names: Seq<Seq<char>>, keys: Seq<Seq<u8>>, show_all: bool)
    requires
        names.len() == keys.len(),
        keys.len() <= usize::MAX,
    ensures
        stable_by_name(keys, listing_order(names, keys, show_all)),
{
    lemma_shown_indices_increasing(names, show_all, names.len());
    lemma_sort_by_name_stable(keys, shown_indices(names, show_all, names.len()));
}

/// Names compare at their first differing byte, as unsigned numbers
/// (0 to 255), and a proper prefix sorts before the longer name: if `a` and
/// `b` agree on their first `i` bytes, then
/// - when both go on and differ at `i`, `a` sorts first exactly when its
///   byte there is the smaller;
/// - when `a` ends at `i` and `b` goes on, `a` sorts first;
/// - when both end at `i` (they are equal), neither sorts first.
pub proof fn lemma_name_lt_first_difference(a: Seq<u8>, b: Seq<u8>, i: int)
    requires
        0 <= i <= a.len(),
        i <= b.len(),
        a.take(i) == b.take(i),
    ensures
        i < a.len() && i < b.len() && a[i] != b[i] ==> (name_lt(a, b) <==> a[i] < b[i]),
        i == a.len() && i < b.len() ==> name_lt(a, b),
        i == a.len() && i == b.len() ==> !name_lt(a, b),
    decreases i,
{
    if i > 0 {
        assert(a[0] == a.take(i)[0]);
        assert(b[0] == b.take(i)[0]);
        assert(a.drop_first().take(i - 1) =~= b.drop_first().take(i - 1)) by {
            assert forall|k: int| 0 <= k < i - 1 implies a.drop_first()[k] == b.drop_first()[k] by {
                assert(a.take(i)[k + 1] == b.take(i)[k + 1]);
                assert(a.take(i)[k + 1] == a[k + 1]);
                assert(b.take(i)[k + 1] == b[k + 1]);
                assert(a.drop_first()[k] == a[k + 1]);
                assert(b.drop_first()[k] == b[k + 1]);
            }
        }
        lemma_name_lt_first_difference(a.drop_first(), b.drop_first(), i - 1);
    }
}

} // verus!
