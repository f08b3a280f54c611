//! Delimiter alignment: pads the first occurrence of a delimiter on each
//! line of a range so that all of them start at the same display cell, as
//! one undo transaction. Lines without the delimiter are left as they are.
use vstd::prelude::*;
use crate::buffer::{Buffer, line_content, char_idx_spec, splice, small, line_count_spec, newlines, begin_model, commit_model, edit_model, folds_after};
use crate::grapheme::{cell, cell_spec};
use crate::text::{chars_of, find_char, next_char, push_repeat, repeat, string_from};
use crate::rope::rope_len_chars;

verus! {

/// A display cell as `grapheme::cell` reports it: saturated at `usize::MAX`.
pub open spec fn sat_cell(x: int) -> int {
    if x <= usize::MAX { x } else { usize::MAX as int }
}

/// Where line `line` of `t` first holds `delim`: the char index and the
/// display cell it starts at.
pub open spec fn delim_at(t: Seq<char>, line: int, delim: char, tab: int) -> Option<(int, int)> {
    let c = line_content(t, line);
    let ci = next_char(c, delim, 0, c.len() as int);
    if ci < c.len() {
        Some((ci, sat_cell(cell_spec(c, ci, tab))))
    } else {
        None
    }
}

/// The first line of the range.
pub open spec fn align_lo(l1: int, l2: int) -> int {
    if l1 <= l2 { l1 } else { l2 }
}

/// The last line of the range, clamped to the last line of `t`.
pub open spec fn align_hi(t: Seq<char>, l1: int, l2: int) -> int {
    let hi = if l1 <= l2 { l2 } else { l1 };
    if hi <= line_count_spec(t) - 1 { hi } else { line_count_spec(t) - 1 }
}

/// The widest delimiter cell among the `k` lines from `lo`.
pub open spec fn max_cell(t: Seq<char>, lo: int, k: int, delim: char, tab: int) -> int
    decreases k,
{
    if k <= 0 {
        0
    } else {
        let m = max_cell(t, lo, k - 1, delim, tab);
        match delim_at(t, lo + k - 1, delim, tab) {
            Some(e) => if e.1 > m { e.1 } else { m },
            None => m,
        }
    }
}

/// Whether any of the `k` lines from `lo` holds the delimiter.
pub open spec fn any_delim(t: Seq<char>, lo: int, k: int, delim: char, tab: int) -> bool
    decreases k,
{
    if k <= 0 {
        false
    } else {
        any_delim(t, lo, k - 1, delim, tab) || delim_at(t, lo + k - 1, delim, tab) is Some
    }
}

/// The spaces a line gets so that its delimiter reaches cell `m`.
pub open spec fn pad_of(e: Option<(int, int)>, m: int) -> int {
    match e {
        Some(p) => m - p.1,
        None => 0,
    }
}

/// The char index of a line's delimiter.
pub open spec fn pos_of(e: Option<(int, int)>) -> int {
    match e {
        Some(p) => p.0,
        None => 0,
    }
}

/// `t` with the first `k` lines from `lo` padded: each line's delimiter
/// (as found in `orig`) gets the spaces that bring it to cell `m`.
pub open spec fn padded(t: Seq<char>, orig: Seq<char>, lo: int, k: int, delim: char, tab: int, m: int) -> Seq<char>
    decreases k,
{
    if k <= 0 {
        t
    } else {
        let p = padded(t, orig, lo, k - 1, delim, tab, m);
        let e = delim_at(orig, lo + k - 1, delim, tab);
        if e is Some && pad_of(e, m) > 0 {
            splice(p, char_idx_spec(p, lo + k - 1, pos_of(e)), repeat(seq![' '], pad_of(e, m) as nat))
        } else {
            p
        }
    }
}

/// The spaces added to the first `k` lines from `lo`.
pub open spec fn total_pad(orig: Seq<char>, lo: int, k: int, delim: char, tab: int, m: int) -> int
    decreases k,
{
    if k <= 0 {
        0
    } else {
        let e = delim_at(orig, lo + k - 1, delim, tab);
        total_pad(orig, lo, k - 1, delim, tab, m) + if pad_of(e, m) > 0 { pad_of(e, m) } else { 0 }
    }
}

/// The text after aligning lines `l1` to `l2` of `t` on `delim`.
pub open spec fn align_spec(t: Seq<char>, l1: int, l2: int, delim: char, tab: int) -> Seq<char> {
    let lo = align_lo(l1, l2);
    let n = align_hi(t, l1, l2) + 1 - lo;
    if !any_delim(t, lo, n, delim, tab) {
        t
    } else {
        padded(t, t, lo, n, delim, tab, max_cell(t, lo, n, delim, tab))
    }
}

proof fn lemma_newlines_spaces(p: nat)
    ensures
        newlines(repeat(seq![' '], p)) == 0,
    decreases p,
{
    if p > 0 {
        lemma_newlines_spaces((p - 1) as nat);
        assert(repeat(seq![' '], p).drop_last() =~= repeat(seq![' '], (p - 1) as nat));
    }
}

proof fn lemma_spaces_len(p: nat)
    ensures
        repeat(seq![' '], p).len() == p,
    decreases p,
{
    if p > 0 {
        lemma_spaces_len((p - 1) as nat);
    }
}

proof fn lemma_max_cell_ge(t: Seq<char>, lo: int, k: int, j: int, delim: char, tab: int)
    requires
        0 <= j < k,
    ensures
        delim_at(t, lo + j, delim, tab) matches Some(e) ==> e.1 <= max_cell(t, lo, k, delim, tab),
    decreases k,
{
    if j < k - 1 {
        lemma_max_cell_ge(t, lo, k - 1, j, delim, tab);
    }
}

proof fn lemma_padded_len(t: Seq<char>, orig: Seq<char>, lo: int, k: int, delim: char, tab: int, m: int)
    requires
        k >= 0,
        lo >= 0,
    ensures
        padded(t, orig, lo, k, delim, tab, m).len() == t.len() + total_pad(orig, lo, k, delim, tab, m),
        total_pad(orig, lo, k, delim, tab, m) >= 0,
    decreases k,
{
    if k > 0 {
        lemma_padded_len(t, orig, lo, k - 1, delim, tab, m);
        let p = padded(t, orig, lo, k - 1, delim, tab, m);
        let e = delim_at(orig, lo + k - 1, delim, tab);
        if e is Some && pad_of(e, m) > 0 {
            lemma_spaces_len(pad_of(e, m) as nat);
            let c = line_content(orig, lo + k - 1);
            crate::text::lemma_next_char(c, delim, 0, c.len() as int);
            crate::buffer::lemma_char_idx_mono(p, lo + k - 1, pos_of(e), pos_of(e));
        }
    }
}

proof fn lemma_total_pad_mono(orig: Seq<char>, lo: int, j: int, k: int, delim: char, tab: int, m: int)
    requires
        0 <= j <= k,
    ensures
        total_pad(orig, lo, j, delim, tab, m) <= total_pad(orig, lo, k, delim, tab, m),
    decreases k - j,
{
    if j < k {
        lemma_total_pad_mono(orig, lo, j, k - 1, delim, tab, m);
    }
}

/// Aligns the first occurrence of `delim` on lines `l1` to `l2` (either
/// order; the last one clamped to the buffer) to the same display cell, by
/// inserting spaces before it, as one undo transaction. Lines without the
/// delimiter are left as they are; with no delimiter in the range nothing
/// happens. A result too large for the buffer's offsets leaves the buffer
/// as it is.
pub fn align(buf: &mut Buffer, l1: usize, l2: usize, delim: char)
    requires
        old(buf).sizes_ok(),
        old(buf).edit_seq + line_count_spec(old(buf).text()) < u64::MAX,
        align_lo(l1 as int, l2 as int) <= align_hi(old(buf).text(), l1 as int, l2 as int) + 1,
    ensures
        ({
            let t0 = old(buf).text();
            let target = align_spec(t0, l1 as int, l2 as int, delim, old(buf).tabstop as int);
            &&& small(target.len() as int) ==> final(buf).text() == target
            &&& small(target.len() as int) && target != t0 ==> final(buf).history() == commit_model(
                edit_model(begin_model(old(buf).history()), target),
            )
            &&& !small(target.len() as int) ==> final(buf).text() == t0 && final(buf).history() == old(buf).history()
            &&& !any_delim(t0, align_lo(l1 as int, l2 as int), align_hi(t0, l1 as int, l2 as int) + 1 - align_lo(l1 as int, l2 as int), delim, old(buf).tabstop as int)
                ==> final(buf).history() == old(buf).history()
            &&& final(buf).folds@ == old(buf).folds@
        }),
{
    let ghost t0 = buf.text();
    let ghost h0 = buf.history();
    let tab = buf.tabstop;
    let lo: usize = if l1 <= l2 { l1 } else { l2 };
    let hi0: usize = if l1 <= l2 { l2 } else { l1 };
    let lc = buf.line_count();
    let hi: usize = if hi0 <= lc - 1 { hi0 } else { lc - 1 };
    let n: usize = hi + 1 - lo;
    let mut entries: Vec<Option<(usize, usize)>> = Vec::new();
    let mut max_col: usize = 0;
    let mut any = false;
    let mut k: usize = 0;
    while k < n
        invariant
            k <= n,
            n as int == align_hi(t0, l1 as int, l2 as int) + 1 - lo,
            lo as int == align_lo(l1 as int, l2 as int),
            t0 == buf.text(),
            tab == buf.tabstop,
            entries@.len() == k,
            forall|j: int| 0 <= j < k ==> match #[trigger] entries@[j] {
                Some(e) => delim_at(t0, lo + j, delim, tab as int) == Some((e.0 as int, e.1 as int)),
                None => delim_at(t0, lo + j, delim, tab as int) is None,
            },
            max_col as int == max_cell(t0, lo as int, k as int, delim, tab as int),
            any == any_delim(t0, lo as int, k as int, delim, tab as int),
        decreases n - k,
    {
        let line = lo + k;
        let text = buf.line_text(line);
        let tc = chars_of(text.as_str());
        let ci = find_char(&tc, delim, 0, tc.len());
        if ci < tc.len() {
            let d = cell(text.as_str(), ci, tab);
            if d > max_col {
                max_col = d;
            }
            any = true;
            entries.push(Some((ci, d)));
        } else {
            entries.push(None);
        }
        k = k + 1;
    }
    if !any {
        return;
    }
    let ghost m = max_col as int;
    let limit: u64 = 0x1000_0000_0000_0000;
    let mut total: u64 = 0;
    let mut k: usize = 0;
    while k < n
        invariant
            k <= n,
            entries@.len() == n,
            forall|j: int| 0 <= j < n ==> match #[trigger] entries@[j] {
                Some(e) => delim_at(t0, lo + j, delim, tab as int) == Some((e.0 as int, e.1 as int)),
                None => delim_at(t0, lo + j, delim, tab as int) is None,
            },
            max_col as int == max_cell(t0, lo as int, n as int, delim, tab as int),
            total as int == total_pad(t0, lo as int, k as int, delim, tab as int, m),
            total < limit,
            limit == 0x1000_0000_0000_0000,
            m == max_col as int,
            any_delim(t0, lo as int, n as int, delim, tab as int),
            n as int == align_hi(t0, l1 as int, l2 as int) + 1 - lo,
            lo as int == align_lo(l1 as int, l2 as int),
            t0 == old(buf).text(),
            tab == old(buf).tabstop,
            buf == old(buf),
        decreases n - k,
    {
        proof {
            lemma_max_cell_ge(t0, lo as int, n as int, k as int, delim, tab as int);
        }
        match entries[k] {
            Some((_ci, d)) => {
                let pad = (max_col - d) as u64;
                proof {
                    assert(delim_at(t0, lo + k, delim, tab as int) == Some((_ci as int, d as int)));
                }
                if pad >= limit - total {
                    proof {
                        lemma_total_pad_mono(t0, lo as int, k + 1, n as int, delim, tab as int, m);
                        lemma_padded_len(t0, t0, lo as int, n as int, delim, tab as int, m);
                        assert(total_pad(t0, lo as int, k + 1, delim, tab as int, m) == total + pad);
                    }
                    return;
                }
                total = total + pad;
            },
            None => {},
        }
        k = k + 1;
    }
    proof {
        lemma_padded_len(t0, t0, lo as int, n as int, delim, tab as int, m);
    }
    let len = rope_len_chars(&buf.rope);
    if len as u64 >= limit - total {
        return;
    }
    buf.begin_edit();
    let ghost h1 = buf.history();
    let mut k: usize = 0;
    let ghost e0 = buf.edit_seq;
    let space = vec![' '];
    proof {
        assert(space@ =~= seq![' ']);
    }
    while k < n
        invariant
            k <= n,
            n as int == align_hi(t0, l1 as int, l2 as int) + 1 - lo,
            n <= line_count_spec(t0),
            lo as int == align_lo(l1 as int, l2 as int),
            entries@.len() == n,
            forall|j: int| 0 <= j < n ==> match #[trigger] entries@[j] {
                Some(e) => delim_at(t0, lo + j, delim, tab as int) == Some((e.0 as int, e.1 as int)),
                None => delim_at(t0, lo + j, delim, tab as int) is None,
            },
            max_col as int == max_cell(t0, lo as int, n as int, delim, tab as int),
            m == max_col as int,
            any_delim(t0, lo as int, n as int, delim, tab as int),
            t0 == old(buf).text(),
            h0 == old(buf).history(),
            space@ == seq![' '],
            buf.text() == padded(t0, t0, lo as int, k as int, delim, tab as int, m),
            small(padded(t0, t0, lo as int, n as int, delim, tab as int, m).len() as int),
            buf.sizes_ok(),
            buf.history() == edit_model(h1, buf.text()),
            h1 == begin_model(h0),
            buf.folds@ == old(buf).folds@,
            tab == old(buf).tabstop,
            e0 == old(buf).edit_seq,
            buf.edit_seq <= e0 + k,
            e0 + line_count_spec(t0) < u64::MAX,
        decreases n - k,
    {
        proof {
            lemma_max_cell_ge(t0, lo as int, n as int, k as int, delim, tab as int);
            lemma_padded_len(t0, t0, lo as int, k as int, delim, tab as int, m);
            lemma_padded_len(t0, t0, lo as int, k + 1, delim, tab as int, m);
            lemma_padded_len(t0, t0, lo as int, n as int, delim, tab as int, m);
            lemma_total_pad_mono(t0, lo as int, k + 1, n as int, delim, tab as int, m);
        }
        match entries[k] {
            Some((ci, d)) => {
                let pad = max_col - d;
                proof {
                    assert(delim_at(t0, lo + k, delim, tab as int) == Some((ci as int, d as int)));
                    assert(pad_of(delim_at(t0, lo + k, delim, tab as int), m) == pad);
                }
                if pad > 0 {
                    let mut sp: Vec<char> = Vec::new();
                    push_repeat(&mut sp, &space, pad as u64);
                    let s = string_from(&sp);
                    proof {
                        lemma_newlines_spaces(pad as nat);
                        lemma_spaces_len(pad as nat);
                    }
                    buf.insert_str(lo + k, ci, s.as_str());
                }
            },
            None => {},
        }
        k = k + 1;
    }
    buf.commit_edit();
}

} // verus!
