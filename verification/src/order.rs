//! The orderings the editor sorts by: strings compared char by char (which
//! for UTF-8 is `String`'s byte order), and keyed entries sorted stably.
use vstd::prelude::*;

verus! {

/// Whether `a` sorts strictly before `b`: the first differing char is
/// smaller, or `a` is a proper prefix of `b`.
pub open spec fn lex_lt(a: Seq<char>, b: Seq<char>) -> bool
    decreases a.len(),
{
    if a.len() == 0 {
        b.len() > 0
    } else if b.len() == 0 {
        false
    } else if a[0] != b[0] {
        a[0] < b[0]
    } else {
        lex_lt(a.drop_first(), b.drop_first())
    }
}

/// Whether `a` sorts strictly before `b`.
pub fn lex_less(a: &[char], b: &[char]) -> (r: bool)
    ensures
        r == lex_lt(a@, b@),
{
    let mut i: usize = 0;
    assert(a@.subrange(0, a@.len() as int) =~= a@);
    assert(b@.subrange(0, b@.len() as int) =~= b@);
    assert(a@.subrange(0, 0) =~= b@.subrange(0, 0));
    while i < a.len() && i < b.len()
        invariant
            i <= a@.len(),
            i <= b@.len(),
            a@.subrange(0, i as int) == b@.subrange(0, i as int),
            lex_lt(a@, b@) == lex_lt(a@.subrange(i as int, a@.len() as int), b@.subrange(i as int, b@.len() as int)),
        decreases a@.len() - i,
    {
        let ghost sa = a@.subrange(i as int, a@.len() as int);
        let ghost sb = b@.subrange(i as int, b@.len() as int);
        if a[i] != b[i] {
            assert(sa[0] == a@[i as int] && sb[0] == b@[i as int]);
            return a[i] < b[i];
        }
        assert(sa.drop_first() =~= a@.subrange(i + 1, a@.len() as int));
        assert(sb.drop_first() =~= b@.subrange(i + 1, b@.len() as int));
        assert(a@.subrange(0, i + 1) =~= a@.subrange(0, i as int).push(a@[i as int]));
        assert(b@.subrange(0, i + 1) =~= b@.subrange(0, i as int).push(b@[i as int]));
        i += 1;
    }
    assert(a@.subrange(i as int, a@.len() as int).len() == a@.len() - i);
    i == a.len() && i < b.len()
}

/// A keyed entry: a number, a string, and a payload that does not take part
/// in the order.
pub type Entry = (usize, Vec<char>, usize);

/// An entry's view.
pub open spec fn entry_view(e: (usize, Vec<char>, usize)) -> (usize, Seq<char>, usize) {
    (e.0, e.1@, e.2)
}

/// The views of a sequence of entries.
pub open spec fn entry_views(s: Seq<(usize, Vec<char>, usize)>) -> Seq<(usize, Seq<char>, usize)> {
    s.map_values(|e: (usize, Vec<char>, usize)| entry_view(e))
}

/// Whether entry `a` sorts strictly before `b`: by number, then by string.
pub open spec fn entry_lt(a: (usize, Seq<char>, usize), b: (usize, Seq<char>, usize)) -> bool {
    a.0 < b.0 || (a.0 == b.0 && lex_lt(a.1, b.1))
}

/// `x` inserted into `r` before the first entry it sorts strictly before
/// (so after every entry it ties with).
pub open spec fn insert_sorted(r: Seq<(usize, Seq<char>, usize)>, x: (usize, Seq<char>, usize)) -> Seq<(usize, Seq<char>, usize)>
    decreases r.len(),
{
    if r.len() == 0 {
        seq![x]
    } else if entry_lt(x, r[0]) {
        seq![x] + r
    } else {
        seq![r[0]] + insert_sorted(r.drop_first(), x)
    }
}

/// The stable sort of entries by number, then string: equal keys keep
/// their order.
pub open spec fn sort_entries_spec(s: Seq<(usize, Seq<char>, usize)>) -> Seq<(usize, Seq<char>, usize)>
    decreases s.len(),
{
    if s.len() == 0 {
        seq![]
    } else {
        insert_sorted(sort_entries_spec(s.drop_last()), s.last())
    }
}

/// The first index of `r` from `k` on whose entry `x` sorts strictly before.
pub open spec fn first_after(r: Seq<(usize, Seq<char>, usize)>, x: (usize, Seq<char>, usize), k: int) -> int
    decreases r.len() - k,
{
    if k < 0 || k >= r.len() || entry_lt(x, r[k]) {
        k
    } else {
        first_after(r, x, k + 1)
    }
}

proof fn lemma_insert_sorted(r: Seq<(usize, Seq<char>, usize)>, x: (usize, Seq<char>, usize), k: int)
    requires
        0 <= k <= r.len(),
    ensures
        k <= first_after(r, x, k) <= r.len(),
        insert_sorted(r.subrange(k, r.len() as int), x) == r.subrange(k, r.len() as int).insert(first_after(r, x, k) - k, x),
    decreases r.len() - k,
{
    let t = r.subrange(k, r.len() as int);
    if k < r.len() {
        if entry_lt(x, r[k]) {
            assert(t[0] == r[k]);
            assert(seq![x] + t =~= t.insert(0, x));
        } else {
            lemma_insert_sorted(r, x, k + 1);
            assert(t[0] == r[k]);
            assert(t.drop_first() =~= r.subrange(k + 1, r.len() as int));
            let f = first_after(r, x, k + 1);
            assert(seq![t[0]] + r.subrange(k + 1, r.len() as int).insert(f - k - 1, x) =~= t.insert(f - k, x));
        }
    } else {
        assert(t =~= Seq::<(usize, Seq<char>, usize)>::empty());
        assert(seq![x] =~= t.insert(0, x));
    }
}

/// Whether entry `a` sorts strictly before `b`.
pub fn entry_less(a: &(usize, Vec<char>, usize), b: &(usize, Vec<char>, usize)) -> (r: bool)
    ensures
        r == entry_lt(entry_view(*a), entry_view(*b)),
{
    a.0 < b.0 || (a.0 == b.0 && lex_less(a.1.as_slice(), b.1.as_slice()))
}

/// Sorts entries stably by number, then string.
pub fn sort_entries(v: Vec<(usize, Vec<char>, usize)>) -> (r: Vec<(usize, Vec<char>, usize)>)
    ensures
        entry_views(r@) == sort_entries_spec(entry_views(v@)),
{
    let ghost orig = entry_views(v@);
    let mut src = v;
    let mut r: Vec<(usize, Vec<char>, usize)> = Vec::new();
    let ghost mut i: int = 0;
    assert(orig.subrange(0, orig.len() as int) =~= orig);
    assert(orig.subrange(0, 0) =~= Seq::<(usize, Seq<char>, usize)>::empty());
    while src.len() > 0
        invariant
            0 <= i <= orig.len(),
            entry_views(src@) == orig.subrange(i, orig.len() as int),
            entry_views(r@) == sort_entries_spec(orig.subrange(0, i)),
        decreases src@.len(),
    {
        let ghost before = src@;
        assert(entry_views(before).len() == before.len());
        assert(i < orig.len());
        let e = src.remove(0);
        assert(entry_view(e) == orig[i]) by {
            assert(entry_views(before)[0] == entry_view(before[0]));
            assert(orig.subrange(i, orig.len() as int)[0] == orig[i]);
        }
        assert(entry_views(src@) =~= orig.subrange(i + 1, orig.len() as int)) by {
            assert(src@ =~= before.subrange(1, before.len() as int));
            assert forall|j: int| 0 <= j < src@.len() implies entry_views(src@)[j] == orig.subrange(i + 1, orig.len() as int)[j] by {
                assert(entry_views(before)[j + 1] == entry_view(before[j + 1]));
                assert(orig.subrange(i, orig.len() as int)[j + 1] == orig[i + 1 + j]);
            }
        }
        let ghost rv = entry_views(r@);
        let mut k: usize = 0;
        assert(rv.subrange(0, rv.len() as int) =~= rv);
        while k < r.len() && !entry_less(&e, &r[k])
            invariant
                k <= r@.len(),
                rv == entry_views(r@),
                first_after(rv, entry_view(e), 0) == first_after(rv, entry_view(e), k as int),
            decreases r@.len() - k,
        {
            k += 1;
        }
        proof {
            lemma_insert_sorted(rv, entry_view(e), 0);
        }
        let ghost old_r = r@;
        r.insert(k, e);
        assert(entry_views(r@) =~= rv.insert(k as int, entry_view(e)));
        assert(orig.subrange(0, i + 1).drop_last() =~= orig.subrange(0, i));
        proof {
            i = i + 1;
        }
    }
    assert(orig.subrange(0, i) =~= orig);
    r
}

/// Sorting keeps the entries: the result is as long as the input and
/// each of its entries is one of the input's.
pub proof fn lemma_sort_elements(s: Seq<(usize, Seq<char>, usize)>)
    ensures
        sort_entries_spec(s).len() == s.len(),
        forall|k: int| 0 <= k < s.len() ==> s.contains(#[trigger] sort_entries_spec(s)[k]),
    decreases s.len(),
{
    if s.len() > 0 {
        let d = s.drop_last();
        let r = sort_entries_spec(d);
        lemma_sort_elements(d);
        lemma_insert_sorted(r, s.last(), 0);
        assert(r.subrange(0, r.len() as int) =~= r);
        let i = first_after(r, s.last(), 0);
        let res = r.insert(i - 0, s.last());
        assert(sort_entries_spec(s) == res);
        assert forall|k: int| 0 <= k < s.len() implies s.contains(#[trigger] sort_entries_spec(s)[k]) by {
            if k == i {
                assert(s[s.len() - 1] == res[k]);
            } else {
                let y = if k < i { r[k] } else { r[k - 1] };
                assert(res[k] == y);
                assert(d.contains(y));
                let j = choose|j: int| 0 <= j < d.len() && d[j] == y;
                assert(s[j] == y);
            }
        }
    }
}

/// Entries in order: no entry sorts strictly before an earlier one.
pub open spec fn entries_sorted(r: Seq<(usize, Seq<char>, usize)>) -> bool {
    forall|i: int, j: int| 0 <= i < j < r.len() ==> !entry_lt(r[j], r[i])
}

proof fn lemma_lex_trans(a: Seq<char>, b: Seq<char>, c: Seq<char>)
    requires
        lex_lt(a, b),
        lex_lt(b, c),
    ensures
        lex_lt(a, c),
    decreases a.len(),
{
    if a.len() > 0 && b.len() > 0 && c.len() > 0 && a[0] == b[0] && b[0] == c[0] {
        lemma_lex_trans(a.drop_first(), b.drop_first(), c.drop_first());
    }
}

proof fn lemma_lex_irrefl(a: Seq<char>)
    ensures
        !lex_lt(a, a),
    decreases a.len(),
{
    if a.len() > 0 {
        lemma_lex_irrefl(a.drop_first());
    }
}

proof fn lemma_entry_trans(a: (usize, Seq<char>, usize), b: (usize, Seq<char>, usize), c: (usize, Seq<char>, usize))
    requires
        entry_lt(a, b),
        entry_lt(b, c),
    ensures
        entry_lt(a, c),
{
    if a.0 == b.0 && b.0 == c.0 {
        lemma_lex_trans(a.1, b.1, c.1);
    }
}

proof fn lemma_insert_keeps_sorted(r: Seq<(usize, Seq<char>, usize)>, x: (usize, Seq<char>, usize))
    requires
        entries_sorted(r),
    ensures
        entries_sorted(insert_sorted(r, x)),
        insert_sorted(r, x).len() == r.len() + 1,
        forall|k: int| 0 <= k < insert_sorted(r, x).len() ==> #[trigger] insert_sorted(r, x)[k] == x || r.contains(insert_sorted(r, x)[k]),
    decreases r.len(),
{
    if r.len() == 0 {
    } else if entry_lt(x, r[0]) {
        let res = seq![x] + r;
        assert forall|i: int, j: int| 0 <= i < j < res.len() implies !entry_lt(res[j], res[i]) by {
            if i == 0 {
                assert(res[j] == r[j - 1]);
                if entry_lt(r[j - 1], x) {
                    lemma_entry_trans(r[j - 1], x, r[0]);
                    lemma_lex_irrefl(r[0].1);
                    if j - 1 > 0 {
                        assert(!entry_lt(r[j - 1], r[0]));
                    }
                }
            } else {
                assert(res[i] == r[i - 1] && res[j] == r[j - 1]);
            }
        }
        assert forall|k: int| 0 <= k < res.len() implies #[trigger] res[k] == x || r.contains(res[k]) by {
            if k > 0 {
                assert(res[k] == r[k - 1]);
            }
        }
    } else {
        let t = r.drop_first();
        assert(entries_sorted(t)) by {
            assert forall|i: int, j: int| 0 <= i < j < t.len() implies !entry_lt(t[j], t[i]) by {
                assert(t[i] == r[i + 1] && t[j] == r[j + 1]);
            }
        }
        lemma_insert_keeps_sorted(t, x);
        let tail = insert_sorted(t, x);
        let res = seq![r[0]] + tail;
        assert(res == insert_sorted(r, x));
        assert forall|k: int| 0 <= k < tail.len() implies !entry_lt(#[trigger] tail[k], r[0]) by {
            if tail[k] != x {
                assert(t.contains(tail[k]));
                let m = choose|m: int| 0 <= m < t.len() && t[m] == tail[k];
                assert(t[m] == r[m + 1]);
            }
        }
        assert forall|i: int, j: int| 0 <= i < j < res.len() implies !entry_lt(res[j], res[i]) by {
            if i == 0 {
                assert(res[j] == tail[j - 1]);
                assert(!entry_lt(tail[j - 1], r[0]));
            } else {
                assert(res[i] == tail[i - 1] && res[j] == tail[j - 1]);
                assert(entries_sorted(tail));
                assert(!entry_lt(tail[j - 1], tail[i - 1]));
            }
        }
        assert forall|k: int| 0 <= k < res.len() implies #[trigger] res[k] == x || r.contains(res[k]) by {
            if k == 0 {
                assert(r[0] == res[0]);
            } else {
                assert(res[k] == tail[k - 1]);
                if tail[k - 1] != x {
                    assert(t.contains(tail[k - 1]));
                    let m = choose|m: int| 0 <= m < t.len() && t[m] == tail[k - 1];
                    assert(r[m + 1] == res[k]);
                }
            }
        }
    }
}

/// Sorting orders entries: in the result no entry sorts strictly before
/// an earlier one.
pub proof fn law_sort_is_ordered(s: Seq<(usize, Seq<char>, usize)>)
    ensures
        entries_sorted(sort_entries_spec(s)),
    decreases s.len(),
{
    if s.len() > 0 {
        law_sort_is_ordered(s.drop_last());
        lemma_insert_keeps_sorted(sort_entries_spec(s.drop_last()), s.last());
    }
}

} // verus!
