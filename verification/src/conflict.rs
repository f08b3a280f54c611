//! Git merge-conflict resolution in a buffer: finding the conflict blocks
//! git writes (`<<<<<<<`, an optional diff3 `|||||||` base, `=======`,
//! `>>>>>>>`), keeping ours, theirs or both, and moving between blocks.
use vstd::prelude::*;
use crate::buffer::{
    Buffer, History, begin_model, char_idx_spec, commit_model, edit_model, line_content,
    line_count_spec, small,
};
use crate::rope::{lemma_line_of_nonneg, lemma_line_start, line_start_of, num_lines};
use crate::text::{chars_of, matches_at, starts_at, string_from};

verus! {

/// Which side(s) of a conflict to keep when resolving.
#[derive(Clone, Copy, PartialEq, Eq, Debug, Structural)]
pub enum Keep {
    Ours,
    Theirs,
    Both,
}

/// One conflict block, as 0-based line numbers: the `<<<<<<<` line, the
/// optional `|||||||` base line, the `=======` line and the `>>>>>>>` line.
#[derive(Clone, Copy, PartialEq, Eq, Debug, Structural)]
pub struct Conflict {
    pub start: usize,
    pub base: Option<usize>,
    pub sep: usize,
    pub end: usize,
}

/// Whether line `i` of `s` starts with `m`.
pub open spec fn line_starts(s: Seq<char>, i: int, m: Seq<char>) -> bool {
    matches_at(line_content(s, i), 0, m)
}

/// The rest of a block that opened at `start`, scanned from line `j` with
/// the base and separator lines seen so far: a new `<<<<<<<` first means
/// the block is malformed; the first `|||||||` before any separator is the
/// base; the first `=======` is the separator; a `>>>>>>>` closes the block
/// when there was a separator, and otherwise means it is malformed.
pub open spec fn block_scan(s: Seq<char>, start: int, j: int, base: Option<usize>, sep: Option<usize>, n: int) -> Option<Conflict>
    decreases n - j,
{
    if j < 0 || j >= n {
        None
    } else if line_starts(s, j, "<<<<<<<"@) {
        None
    } else if base is None && sep is None && line_starts(s, j, "|||||||"@) {
        block_scan(s, start, j + 1, Some(j as usize), sep, n)
    } else if sep is None && line_starts(s, j, "======="@) {
        block_scan(s, start, j + 1, base, Some(j as usize), n)
    } else if line_starts(s, j, ">>>>>>>"@) {
        match sep {
            Some(p) => Some(Conflict { start: start as usize, base, sep: p, end: j as usize }),
            None => None,
        }
    } else {
        block_scan(s, start, j + 1, base, sep, n)
    }
}

/// The first well-formed conflict block that opens at or after line `i`
/// (of `n` lines).
pub open spec fn conflict_from(s: Seq<char>, i: int, n: int) -> Option<Conflict>
    decreases n - i,
{
    if i < 0 || i >= n {
        None
    } else if line_starts(s, i, "<<<<<<<"@) && block_scan(s, i, i + 1, None, None, n) is Some {
        block_scan(s, i, i + 1, None, None, n)
    } else {
        conflict_from(s, i + 1, n)
    }
}

fn line_starts_with(buf: &Buffer, i: usize, m: &Vec<char>) -> (r: bool)
    ensures
        r == line_starts(buf.text(), i as int, m@),
{
    let t = chars_of(buf.line_text(i).as_str());
    starts_at(&t, 0, m)
}

proof fn lemma_block_scan(s: Seq<char>, start: int, j: int, base: Option<usize>, sep: Option<usize>, n: int)
    requires
        0 <= start < j,
        n <= usize::MAX,
        base matches Some(b) ==> start < b < j,
        sep matches Some(p) ==> start < p < j,
        base is Some && sep is Some ==> base->0 < sep->0,
    ensures
        block_scan(s, start, j, base, sep, n) matches Some(c) ==> c.start == start && start < c.sep < c.end < n && j <= c.end
            && (c.base matches Some(b) ==> start < b < c.sep),
    decreases n - j,
{
    if 0 <= j < n {
        if line_starts(s, j, "<<<<<<<"@) {
        } else if base is None && sep is None && line_starts(s, j, "|||||||"@) {
            lemma_block_scan(s, start, j + 1, Some(j as usize), sep, n);
        } else if sep is None && line_starts(s, j, "======="@) {
            lemma_block_scan(s, start, j + 1, base, Some(j as usize), n);
        } else if line_starts(s, j, ">>>>>>>"@) {
        } else {
            lemma_block_scan(s, start, j + 1, base, sep, n);
        }
    }
}

proof fn lemma_conflict_from(s: Seq<char>, i: int, n: int)
    requires
        0 <= i,
        n <= usize::MAX,
    ensures
        conflict_from(s, i, n) matches Some(c) ==> i <= c.start < c.sep < c.end < n && (c.base matches Some(b) ==> c.start < b < c.sep),
    decreases n - i,
{
    if 0 <= i < n {
        lemma_block_scan(s, i, i + 1, None, None, n);
        lemma_conflict_from(s, i + 1, n);
    }
}

/// The first well-formed conflict block that opens at or after line `from`.
pub fn find_conflict_from(buf: &Buffer, from: usize) -> (r: Option<Conflict>)
    ensures
        r == conflict_from(buf.text(), from as int, line_count_spec(buf.text())),
        r matches Some(c) ==> from <= c.start < c.sep < c.end < line_count_spec(buf.text()) && (c.base matches Some(b) ==> c.start < b < c.sep),
{
    let ghost s = buf.text();
    let n = buf.line_count();
    let open = chars_of("<<<<<<<");
    let mid = chars_of("|||||||");
    let sepm = chars_of("=======");
    let close = chars_of(">>>>>>>");
    proof {
        lemma_conflict_from(s, from as int, n as int);
    }
    let mut i = from;
    while i < n
        invariant
            from <= i,
            n == line_count_spec(s),
            s == buf.text(),
            open@ == "<<<<<<<"@,
            mid@ == "|||||||"@,
            sepm@ == "======="@,
            close@ == ">>>>>>>"@,
            conflict_from(s, from as int, n as int) == conflict_from(s, i as int, n as int),
        decreases n - i,
    {
        if line_starts_with(buf, i, &open) {
            let start = i;
            let mut base: Option<usize> = None;
            let mut sep: Option<usize> = None;
            let mut j = start + 1;
            let mut found: Option<Conflict> = None;
            let mut stop = false;
            while j < n && !stop
                invariant
                    start < j,
                    n == line_count_spec(s),
                    s == buf.text(),
                    open@ == "<<<<<<<"@,
                    mid@ == "|||||||"@,
                    sepm@ == "======="@,
                    close@ == ">>>>>>>"@,
                    !stop ==> block_scan(s, start as int, start + 1, None, None, n as int) == block_scan(s, start as int, j as int, base, sep, n as int),
                    stop ==> block_scan(s, start as int, start + 1, None, None, n as int) == found,
                    !stop ==> found is None,
                decreases n - j + if stop { 0int } else { 1int },
            {
                if line_starts_with(buf, j, &open) {
                    stop = true;
                } else if base.is_none() && sep.is_none() && line_starts_with(buf, j, &mid) {
                    base = Some(j);
                    j += 1;
                } else if sep.is_none() && line_starts_with(buf, j, &sepm) {
                    sep = Some(j);
                    j += 1;
                } else if line_starts_with(buf, j, &close) {
                    if let Some(p) = sep {
                        found = Some(Conflict { start, base, sep: p, end: j });
                    }
                    stop = true;
                } else {
                    j += 1;
                }
            }
            if found.is_some() {
                proof {
                    lemma_conflict_from(s, from as int, n as int);
                }
                return found;
            }
            i = start + 1;
        } else {
            i += 1;
        }
    }
    None
}

/// The conflict block containing line `line`: walking the blocks in order
/// from line `from`, the first that reaches `line`, unless it starts after
/// it.
pub open spec fn containing_from(s: Seq<char>, line: int, from: int, n: int) -> Option<Conflict>
    decreases n - from,
{
    if from < 0 || from >= n {
        None
    } else {
        match conflict_from(s, from, n) {
            Some(c) => if c.start <= line <= c.end {
                Some(c)
            } else if c.start > line {
                None
            } else if c.end + 1 <= from || c.end >= n {
                None
            } else {
                containing_from(s, line, c.end + 1, n)
            },
            None => None,
        }
    }
}

/// The conflict block containing line `line`, if any.
pub fn conflict_containing(buf: &Buffer, line: usize) -> (r: Option<Conflict>)
    ensures
        r == containing_from(buf.text(), line as int, 0, line_count_spec(buf.text())),
        r matches Some(c) ==> c.start < c.sep < c.end < line_count_spec(buf.text()) && (c.base matches Some(b) ==> c.start < b < c.sep),
{
    let ghost s = buf.text();
    let n = buf.line_count();
    let mut from: usize = 0;
    while from < n
        invariant
            n == line_count_spec(s),
            s == buf.text(),
            containing_from(s, line as int, 0, n as int) == containing_from(s, line as int, from as int, n as int),
        decreases n - from,
    {
        match find_conflict_from(buf, from) {
            Some(c) => {
                if c.start <= line && line <= c.end {
                    return Some(c);
                }
                if c.start > line {
                    return None;
                }
                from = c.end + 1;
            },
            None => {
                return None;
            },
        }
    }
    None
}

/// The lines `lo..hi` of `s`.
pub open spec fn line_range(s: Seq<char>, lo: int, hi: int) -> Seq<Seq<char>>
    decreases hi - lo,
{
    if lo >= hi { seq![] } else { seq![line_content(s, lo)] + line_range(s, lo + 1, hi) }
}

/// Lines joined, each followed by `\n`.
pub open spec fn joined_lines(ls: Seq<Seq<char>>) -> Seq<char>
    decreases ls.len(),
{
    if ls.len() == 0 { seq![] } else { ls[0] + seq!['\n'] + joined_lines(ls.drop_first()) }
}

/// The lines kept when resolving a block: ours (between the start and the
/// base or separator), theirs (between the separator and the end), or both.
pub open spec fn kept_lines(s: Seq<char>, c: Conflict, keep: Keep) -> Seq<Seq<char>> {
    let ours = line_range(s, c.start + 1, match c.base { Some(b) => b as int, None => c.sep as int });
    let theirs = line_range(s, c.sep + 1, c.end as int);
    match keep {
        Keep::Ours => ours,
        Keep::Theirs => theirs,
        Keep::Both => ours + theirs,
    }
}

/// The text with conflict block `c` (its lines through the end line's line
/// break) replaced by the kept lines.
pub open spec fn resolved_text(s: Seq<char>, c: Conflict, keep: Keep) -> Seq<char> {
    let a = char_idx_spec(s, c.start as int, 0);
    let e = if c.end + 1 < line_count_spec(s) { char_idx_spec(s, c.end + 1, 0) } else { s.len() as int };
    s.subrange(0, a) + joined_lines(kept_lines(s, c, keep)) + s.subrange(e, s.len() as int)
}

fn push_lines(buf: &Buffer, lo: usize, hi: usize, out: &mut Vec<char>)
    ensures
        final(out)@ == old(out)@ + joined_lines(line_range(buf.text(), lo as int, hi as int)),
    decreases hi - lo,
{
    if lo >= hi {
        assert(old(out)@ + joined_lines(Seq::<Seq<char>>::empty()) =~= old(out)@);
        return;
    }
    let t = chars_of(buf.line_text(lo).as_str());
    let ghost before = out@;
    crate::text::extend_chars(out, t.as_slice());
    out.push('\n');
    push_lines(buf, lo + 1, hi, out);
    proof {
        let rest = line_range(buf.text(), lo + 1, hi as int);
        assert(line_range(buf.text(), lo as int, hi as int) == seq![t@] + rest);
        assert((seq![t@] + rest).drop_first() =~= rest);
        assert(out@ =~= before + joined_lines(line_range(buf.text(), lo as int, hi as int)));
    }
}

/// Resolves the conflict block containing line `line` by keeping the
/// chosen side(s) and dropping the markers (and any base section), as one
/// undoable edit; returns the line to put the cursor on, `None` when `line`
/// is in no conflict block.
pub fn resolve_conflict(buf: &mut Buffer, line: usize, keep: Keep) -> (r: Option<usize>)
    requires
        old(buf).edit_seq < u64::MAX - 1,
        old(buf).sizes_ok(),
        small(3 * old(buf).text().len() as int),
    ensures
        match containing_from(old(buf).text(), line as int, 0, line_count_spec(old(buf).text())) {
            Some(c) => {
                let t = resolved_text(old(buf).text(), c, keep);
                &&& final(buf).history() == commit_model(edit_model(begin_model(old(buf).history()), t))
                &&& r == Some(if (c.start as int) < line_count_spec(t) - 1 { c.start } else { (line_count_spec(t) - 1) as usize })
            },
            None => r is None && *final(buf) == *old(buf),
        },
{
    let c = match conflict_containing(buf, line) {
        Some(c) => c,
        None => {
            return None;
        },
    };
    let ghost s = buf.text();
    let mut kept: Vec<char> = Vec::new();
    let ours_end = match c.base {
        Some(b) => b,
        None => c.sep,
    };
    match keep {
        Keep::Ours => {
            push_lines(buf, c.start + 1, ours_end, &mut kept);
            assert(kept@ =~= joined_lines(kept_lines(s, c, keep)));
        },
        Keep::Theirs => {
            push_lines(buf, c.sep + 1, c.end, &mut kept);
            assert(kept@ =~= joined_lines(kept_lines(s, c, keep)));
        },
        Keep::Both => {
            push_lines(buf, c.start + 1, ours_end, &mut kept);
            push_lines(buf, c.sep + 1, c.end, &mut kept);
            proof {
                lemma_joined_concat(line_range(s, c.start + 1, ours_end as int), line_range(s, c.sep + 1, c.end as int));
            }
            assert(kept@ =~= joined_lines(kept_lines(s, c, keep)));
        },
    }
    let n = buf.line_count();
    let start_char = buf.char_idx(c.start, 0);
    let end_char = if c.end + 1 < n {
        buf.char_idx(c.end + 1, 0)
    } else {
        crate::rope::rope_len_chars(&buf.rope)
    };
    proof {
        lemma_resolve_bounds(s, c, keep);
    }
    let replacement = string_from(&kept);
    let ghost h0 = buf.history();
    buf.begin_edit();
    let ghost h1 = buf.history();
    assert(h1 == begin_model(h0));
    let _ = buf.delete_char_range(start_char, end_char);
    let ghost s1 = s.subrange(0, start_char as int) + s.subrange(end_char as int, s.len() as int);
    assert(buf.text() =~= s1);
    assert(buf.history() == edit_model(h1, s1));
    buf.insert_str_at(start_char, replacement.as_str());
    assert(buf.text() =~= resolved_text(s, c, keep));
    buf.commit_edit();
    let lc = buf.line_count();
    Some(if c.start < lc - 1 { c.start } else { lc - 1 })
}

proof fn lemma_joined_concat(a: Seq<Seq<char>>, b: Seq<Seq<char>>)
    ensures
        joined_lines(a + b) == joined_lines(a) + joined_lines(b),
    decreases a.len(),
{
    if a.len() == 0 {
        assert(a + b =~= b);
        assert(joined_lines(a) + joined_lines(b) =~= joined_lines(b));
    } else {
        lemma_joined_concat(a.drop_first(), b);
        assert((a + b).drop_first() =~= a.drop_first() + b);
        assert(joined_lines(a + b) =~= joined_lines(a) + joined_lines(b));
    }
}

/// Line starts do not decrease.
proof fn lemma_line_start_mono(s: Seq<char>, i: int, j: int)
    requires
        0 <= i <= j < num_lines(s),
    ensures
        line_start_of(s, i) <= line_start_of(s, j),
    decreases j - i,
{
    if i < j {
        lemma_line_start(s, i);
        lemma_line_start_mono(s, i + 1, j);
    }
}

/// Lines `lo..hi`, each with a `\n`, are at most twice as long as the text
/// they span.
proof fn lemma_joined_len(s: Seq<char>, lo: int, hi: int)
    requires
        0 <= lo <= hi < num_lines(s),
    ensures
        joined_lines(line_range(s, lo, hi)).len() <= 2 * (line_start_of(s, hi) - line_start_of(s, lo)),
    decreases hi - lo,
{
    if lo < hi {
        lemma_joined_len(s, lo + 1, hi);
        lemma_line_start(s, lo);
        let rest = line_range(s, lo + 1, hi);
        assert(line_range(s, lo, hi) == seq![line_content(s, lo)] + rest);
        assert((seq![line_content(s, lo)] + rest).drop_first() =~= rest);
        assert(line_content(s, lo).len() <= line_start_of(s, lo + 1) - line_start_of(s, lo));
    }
}

/// The char offsets of a block's edges are in order within the text, and
/// what it keeps is at most twice the text's length.
proof fn lemma_resolve_bounds(s: Seq<char>, c: Conflict, keep: Keep)
    requires
        c.start < c.sep < c.end < line_count_spec(s),
        c.base matches Some(b) ==> c.start < b < c.sep,
    ensures
        ({
            let a = char_idx_spec(s, c.start as int, 0);
            let e = if c.end + 1 < line_count_spec(s) { char_idx_spec(s, c.end + 1, 0) } else { s.len() as int };
            &&& 0 <= a <= e <= s.len()
            &&& joined_lines(kept_lines(s, c, keep)).len() <= 2 * s.len()
        }),
{
    lemma_line_of_nonneg(s, s.len() as int);
    let nl = num_lines(s);
    lemma_line_start(s, c.start as int);
    lemma_line_start(s, nl - 1);
    lemma_line_start_mono(s, c.start as int, nl - 1);
    if c.end + 1 < line_count_spec(s) {
        lemma_line_start_mono(s, c.start as int, c.end + 1);
        lemma_line_start(s, c.end + 1);
    }
    let ours_end = match c.base { Some(b) => b as int, None => c.sep as int };
    lemma_joined_len(s, c.start + 1, ours_end);
    lemma_joined_len(s, c.sep + 1, c.end as int);
    lemma_line_start_mono(s, c.start + 1, ours_end);
    lemma_line_start_mono(s, ours_end, c.sep + 1);
    lemma_line_start_mono(s, c.sep + 1, c.end as int);
    lemma_line_start_mono(s, c.end as int, nl - 1);
    lemma_line_start_mono(s, 0, c.start + 1);
    lemma_line_start(s, 0);
    lemma_joined_concat(line_range(s, c.start + 1, ours_end), line_range(s, c.sep + 1, c.end as int));
}

/// The line of the next conflict block after line `line` (forward), or of
/// the last block that starts before it (backward).
pub open spec fn goto_spec(s: Seq<char>, line: int, forward: bool) -> Option<usize> {
    if forward {
        match conflict_from(s, line + 1, line_count_spec(s)) {
            Some(c) => Some(c.start),
            None => None,
        }
    } else {
        prev_start_from(s, line, 0, None)
    }
}

/// Walking the blocks in order from line `from`, the start of the last one
/// that starts before `line` (`prev` so far).
pub open spec fn prev_start_from(s: Seq<char>, line: int, from: int, prev: Option<usize>) -> Option<usize>
    decreases line_count_spec(s) - from,
{
    if from < 0 || from >= line_count_spec(s) {
        prev
    } else {
        match conflict_from(s, from, line_count_spec(s)) {
            Some(c) => if c.start >= line || c.end + 1 <= from || c.end >= line_count_spec(s) { prev } else { prev_start_from(s, line, c.end + 1, Some(c.start)) },
            None => prev,
        }
    }
}

/// The line to jump to for `:conflictnext`/`:conflictprev` from line
/// `line`, without wrapping.
pub fn goto_conflict(buf: &Buffer, line: usize, forward: bool) -> (r: Option<usize>)
    requires
        line < usize::MAX,
    ensures
        r == goto_spec(buf.text(), line as int, forward),
{
    if forward {
        return match find_conflict_from(buf, line + 1) {
            Some(c) => Some(c.start),
            None => None,
        };
    }
    let ghost s = buf.text();
    let n = buf.line_count();
    let mut prev: Option<usize> = None;
    let mut from: usize = 0;
    while from < n
        invariant
            n == line_count_spec(s),
            s == buf.text(),
            prev_start_from(s, line as int, 0, None) == prev_start_from(s, line as int, from as int, prev),
            !forward,
        decreases n - from,
    {
        match find_conflict_from(buf, from) {
            Some(c) => {
                if c.start >= line {
                    return prev;
                }
                prev = Some(c.start);
                from = c.end + 1;
            },
            None => {
                return prev;
            },
        }
    }
    prev
}

} // verus!
