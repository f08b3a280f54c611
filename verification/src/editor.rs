//! Editor commands that act on one buffer: folds (`zf`, `za`, `zo`, `zc`,
//! `zd`, `zR`, `zM`, `:foldindent`), indentation of new lines and electric
//! dedent, and the ghost-text suggestion. Each works on the buffer it is
//! given and reports what happened; the editor shows the messages.
use vstd::prelude::*;
use crate::buffer::{Buffer, Fold, line_content, last_col_clamp, last_line, first_hiding};
use crate::grapheme::{boundary, floor_index};
use crate::buffer::{char_idx_spec, edit_model, line_count_spec};
use crate::rope::{num_lines, rope_len_lines};
use crate::text::{alphanumeric, chars_eq, chars_of, copy_range, extend_chars, find_last_char, is_alphanumeric, lowercase_str, push_repeat, repeat, starts_at, skip_ws_back_exec, str_lowercase, string_from, string_of, trim, trim_bounds, trim_end, trim_str};
use crate::language::extension_spec;

verus! {

/// Which list view a resume command reopens: the results list or the
/// picker.
#[derive(Clone, Copy, PartialEq, Eq, Debug, Structural)]
pub enum ResumeTarget {
    Results,
    Picker,
}

// ---------------------------------------------------------------- folds

/// Whether fold `f` covers `line`.
pub open spec fn covers(f: Fold, line: int) -> bool {
    f.start <= line <= f.end
}

/// How many lines past its first a fold spans.
pub open spec fn span(f: Fold) -> int {
    f.end - f.start
}

/// The innermost fold covering `line`: the first of the narrowest folds
/// that cover it.
pub open spec fn innermost(fs: Seq<Fold>, line: int, i: int) -> bool {
    &&& 0 <= i < fs.len()
    &&& covers(fs[i], line)
    &&& forall|j: int| 0 <= j < fs.len() && covers(#[trigger] fs[j], line) ==> span(fs[i]) <= span(fs[j])
    &&& forall|j: int| 0 <= j < i && covers(#[trigger] fs[j], line) ==> span(fs[i]) < span(fs[j])
}

/// Whether no fold covers `line`.
pub open spec fn uncovered(fs: Seq<Fold>, line: int) -> bool {
    forall|j: int| 0 <= j < fs.len() ==> !covers(#[trigger] fs[j], line)
}

/// Whether `a` and `b` hold the same text, history and settings; only the
/// folds and the cursor may differ.
pub open spec fn same_text(a: &Buffer, b: &Buffer) -> bool {
    &&& a.rope == b.rope
    &&& a.saved_snapshot == b.saved_snapshot
    &&& a.undo_stack@ == b.undo_stack@
    &&& a.redo_stack@ == b.redo_stack@
    &&& a.pending_undo == b.pending_undo
    &&& a.edit_seq == b.edit_seq
    &&& a.tabstop == b.tabstop
    &&& a.shiftwidth == b.shiftwidth
    &&& a.expandtab == b.expandtab
}

/// Whether `r` is where Normal mode puts column `col` on a line with text
/// `t`: 0 on an empty line, else the start of the grapheme cluster that
/// holds `col` clamped to the last char.
pub open spec fn normal_col(t: Seq<char>, col: int, r: int) -> bool {
    &&& t.len() == 0 ==> r == 0
    &&& t.len() > 0 ==> exists|k: int| #[trigger] floor_index(t, last_col_clamp(t, col), k) && r == boundary(t, k)
}

impl Buffer {
    /// The index of the innermost fold covering `line`, if any.
    pub fn fold_at(&self, line: usize) -> (r: Option<usize>)
        ensures
            match r {
                Some(i) => innermost(self.folds@, line as int, i as int),
                None => uncovered(self.folds@, line as int),
            },
    {
        let ghost fs = self.folds@;
        let mut best: Option<usize> = None;
        let mut i: usize = 0;
        while i < self.folds.len()
            invariant
                fs == self.folds@,
                i <= fs.len(),
                match best {
                    Some(b) => {
                        &&& b < i
                        &&& covers(fs[b as int], line as int)
                        &&& forall|j: int| 0 <= j < i && covers(#[trigger] fs[j], line as int) ==> span(fs[b as int]) <= span(fs[j])
                        &&& forall|j: int| 0 <= j < b && covers(#[trigger] fs[j], line as int) ==> span(fs[b as int]) < span(fs[j])
                    },
                    None => forall|j: int| 0 <= j < i ==> !covers(#[trigger] fs[j], line as int),
                },
            decreases fs.len() - i,
        {
            let f = self.folds[i];
            if f.start <= line && line <= f.end {
                let better = match best {
                    None => true,
                    Some(b) => {
                        let g = self.folds[b];
                        f.end - f.start < g.end - g.start
                    },
                };
                if better {
                    best = Some(i);
                }
            }
            i += 1;
        }
        best
    }

    /// `:fold` / Visual `zf`: a closed fold over the inclusive line range
    /// between `start` and `end` (either order), clamped to the last line;
    /// the cursor goes to its first line. Gives the number of lines folded,
    /// or none (and changes nothing) when fewer than two lines remain.
    pub fn create_fold(&mut self, start: usize, end: usize) -> (r: Option<usize>)
        ensures
            ({
                let last = last_line(old(self).text());
                let lo = if start <= end { start as int } else { end as int };
                let hi = if start <= end { end as int } else { start as int };
                let s = if lo <= last { lo } else { last };
                let e = if hi <= last { hi } else { last };
                if e <= s {
                    r is None && *final(self) == *old(self)
                } else {
                    &&& r == Some((e - s + 1) as usize)
                    &&& final(self).folds@ == old(self).folds@.push(Fold { start: s as usize, end: e as usize, closed: true })
                    &&& final(self).cursor_line == s
                    &&& final(self).cursor_col == old(self).cursor_col
                    &&& same_text(final(self), old(self))
                }
            }),
    {
        let last = self.line_count() - 1;
        let lo = if start <= end { start } else { end };
        let hi = if start <= end { end } else { start };
        let s = if lo <= last { lo } else { last };
        let e = if hi <= last { hi } else { last };
        if e <= s {
            return None;
        }
        self.folds.push(Fold { start: s, end: e, closed: true });
        self.cursor_line = s;
        Some(e - s + 1)
    }

    /// `za`: opens the innermost fold under the cursor, or closes it and
    /// moves the cursor to its first line. False (and nothing changes) when
    /// no fold covers the cursor line.
    pub fn toggle_fold(&mut self) -> (r: bool)
        ensures
            match old(self).fold_at_spec(old(self).cursor_line as int) {
                Some(i) => {
                    let f = old(self).folds@[i];
                    &&& r
                    &&& final(self).folds@ == old(self).folds@.update(i, Fold { closed: !f.closed, ..f })
                    &&& final(self).cursor_line == if f.closed { old(self).cursor_line } else { f.start }
                    &&& final(self).cursor_col == old(self).cursor_col
                    &&& same_text(final(self), old(self))
                },
                None => !r && *final(self) == *old(self),
            },
    {
        match self.fold_at(self.cursor_line) {
            Some(i) => {
                proof {
                    self.lemma_fold_at_unique(self.cursor_line as int, i as int);
                }
                let f = self.folds[i];
                let g = Fold { start: f.start, end: f.end, closed: !f.closed };
                self.folds.set(i, g);
                if g.closed {
                    self.cursor_line = g.start;
                }
                true
            },
            None => {
                proof {
                    self.lemma_fold_at_none(self.cursor_line as int);
                }
                false
            },
        }
    }

    /// `zo`: opens the innermost fold under the cursor; false when there is
    /// none.
    pub fn open_fold(&mut self) -> (r: bool)
        ensures
            match old(self).fold_at_spec(old(self).cursor_line as int) {
                Some(i) => {
                    let f = old(self).folds@[i];
                    &&& r
                    &&& final(self).folds@ == old(self).folds@.update(i, Fold { closed: false, ..f })
                    &&& final(self).cursor_line == old(self).cursor_line
                    &&& final(self).cursor_col == old(self).cursor_col
                    &&& same_text(final(self), old(self))
                },
                None => !r && *final(self) == *old(self),
            },
    {
        match self.fold_at(self.cursor_line) {
            Some(i) => {
                proof {
                    self.lemma_fold_at_unique(self.cursor_line as int, i as int);
                }
                let f = self.folds[i];
                self.folds.set(i, Fold { start: f.start, end: f.end, closed: false });
                true
            },
            None => {
                proof {
                    self.lemma_fold_at_none(self.cursor_line as int);
                }
                false
            },
        }
    }

    /// `zc`: closes the innermost fold under the cursor and moves the cursor
    /// to its first line; false when there is none.
    pub fn close_fold(&mut self) -> (r: bool)
        ensures
            match old(self).fold_at_spec(old(self).cursor_line as int) {
                Some(i) => {
                    let f = old(self).folds@[i];
                    &&& r
                    &&& final(self).folds@ == old(self).folds@.update(i, Fold { closed: true, ..f })
                    &&& final(self).cursor_line == f.start
                    &&& final(self).cursor_col == old(self).cursor_col
                    &&& same_text(final(self), old(self))
                },
                None => !r && *final(self) == *old(self),
            },
    {
        match self.fold_at(self.cursor_line) {
            Some(i) => {
                proof {
                    self.lemma_fold_at_unique(self.cursor_line as int, i as int);
                }
                let f = self.folds[i];
                self.folds.set(i, Fold { start: f.start, end: f.end, closed: true });
                self.cursor_line = f.start;
                true
            },
            None => {
                proof {
                    self.lemma_fold_at_none(self.cursor_line as int);
                }
                false
            },
        }
    }

    /// `zd`: deletes the innermost fold under the cursor; false when there is
    /// none.
    pub fn delete_fold(&mut self) -> (r: bool)
        ensures
            match old(self).fold_at_spec(old(self).cursor_line as int) {
                Some(i) => {
                    &&& r
                    &&& final(self).folds@ == old(self).folds@.remove(i)
                    &&& final(self).cursor_line == old(self).cursor_line
                    &&& final(self).cursor_col == old(self).cursor_col
                    &&& same_text(final(self), old(self))
                },
                None => !r && *final(self) == *old(self),
            },
    {
        match self.fold_at(self.cursor_line) {
            Some(i) => {
                proof {
                    self.lemma_fold_at_unique(self.cursor_line as int, i as int);
                }
                self.folds.remove(i);
                true
            },
            None => {
                proof {
                    self.lemma_fold_at_none(self.cursor_line as int);
                }
                false
            },
        }
    }

    /// The index of the innermost fold covering `line`, if any.
    pub open spec fn fold_at_spec(&self, line: int) -> Option<int> {
        if exists|i: int| innermost(self.folds@, line, i) {
            Some(choose|i: int| innermost(self.folds@, line, i))
        } else {
            None
        }
    }

    /// At most one fold is the innermost one.
    proof fn lemma_fold_at_unique(&self, line: int, i: int)
        requires
            innermost(self.folds@, line, i),
        ensures
            self.fold_at_spec(line) == Some(i),
    {
        let k = choose|k: int| innermost(self.folds@, line, k);
        assert(innermost(self.folds@, line, k));
        if k < i {
            assert(covers(self.folds@[k], line));
        } else if i < k {
            assert(covers(self.folds@[i], line));
        }
    }

    /// Without a covering fold there is no innermost one.
    proof fn lemma_fold_at_none(&self, line: int)
        requires
            uncovered(self.folds@, line),
        ensures
            self.fold_at_spec(line) is None,
    {
        if exists|i: int| innermost(self.folds@, line, i) {
            let k = choose|k: int| innermost(self.folds@, line, k);
            assert(covers(self.folds@[k], line));
        }
    }

    /// `zR`: opens every fold.
    pub fn open_all_folds(&mut self)
        ensures
            final(self).folds@.len() == old(self).folds@.len(),
            forall|k: int| 0 <= k < final(self).folds@.len() ==> #[trigger] final(self).folds@[k] == (Fold { closed: false, ..old(self).folds@[k] }),
            final(self).cursor_line == old(self).cursor_line,
            final(self).cursor_col == old(self).cursor_col,
            same_text(final(self), old(self)),
    {
        self.set_all_folds(false);
    }

    /// `zM`: closes every fold.
    pub fn close_all_folds(&mut self)
        ensures
            final(self).folds@.len() == old(self).folds@.len(),
            forall|k: int| 0 <= k < final(self).folds@.len() ==> #[trigger] final(self).folds@[k] == (Fold { closed: true, ..old(self).folds@[k] }),
            final(self).cursor_line == old(self).cursor_line,
            final(self).cursor_col == old(self).cursor_col,
            same_text(final(self), old(self)),
    {
        self.set_all_folds(true);
    }

    fn set_all_folds(&mut self, closed: bool)
        ensures
            final(self).folds@.len() == old(self).folds@.len(),
            forall|k: int| 0 <= k < final(self).folds@.len() ==> #[trigger] final(self).folds@[k] == (Fold { closed: closed, ..old(self).folds@[k] }),
            final(self).cursor_line == old(self).cursor_line,
            final(self).cursor_col == old(self).cursor_col,
            same_text(final(self), old(self)),
    {
        let mut i: usize = 0;
        while i < self.folds.len()
            invariant
                i <= self.folds@.len(),
                self.folds@.len() == old(self).folds@.len(),
                forall|k: int| 0 <= k < i ==> #[trigger] self.folds@[k] == (Fold { closed: closed, ..old(self).folds@[k] }),
                forall|k: int| i <= k < self.folds@.len() ==> #[trigger] self.folds@[k] == old(self).folds@[k],
                self.cursor_line == old(self).cursor_line,
                self.cursor_col == old(self).cursor_col,
                same_text(self, old(self)),
            decreases self.folds@.len() - i,
        {
            let f = self.folds[i];
            self.folds.set(i, Fold { start: f.start, end: f.end, closed: closed });
            i += 1;
        }
    }

    /// Moves the cursor out of a closed fold that hides it, onto the fold's
    /// first line, its column clamped there as in Normal mode.
    pub fn clamp_cursor_folds(&mut self)
        ensures
            match first_hiding(old(self).folds@, old(self).cursor_line as int, last_line(old(self).text())) {
                Some(f) => {
                    &&& final(self).cursor_line == f.start
                    &&& normal_col(line_content(old(self).text(), f.start as int), old(self).cursor_col as int, final(self).cursor_col as int)
                },
                None => final(self).cursor_line == old(self).cursor_line && final(self).cursor_col == old(self).cursor_col,
            },
            final(self).folds@ == old(self).folds@,
            same_text(final(self), old(self)),
    {
        match self.hidden_by_fold(self.cursor_line) {
            Some(f) => {
                let c = self.clamp_col_normal(f.start, self.cursor_col);
                self.cursor_line = f.start;
                self.cursor_col = c;
            },
            None => {},
        }
    }
}

// ---------------------------------------------------------------- indent folds

/// The indentation width of the leading blanks of `t` from `i` on: a space
/// counts 1, a tab `ts`.
pub open spec fn lead_width(t: Seq<char>, i: int, ts: int) -> int
    decreases t.len() - i,
{
    if i < 0 || i >= t.len() {
        0
    } else if t[i] == ' ' {
        1 + lead_width(t, i + 1, ts)
    } else if t[i] == '\t' {
        ts + lead_width(t, i + 1, ts)
    } else {
        0
    }
}

/// The indent level of a line: none for a blank line, else the width of its
/// leading blanks.
pub open spec fn indent_level(t: Seq<char>, ts: int) -> Option<int> {
    if trim(t).len() == 0 {
        None
    } else {
        Some(lead_width(t, 0, ts))
    }
}

/// A tab's width for indent levels: the tabstop, at least 1.
pub open spec fn tab_width(tabstop: usize) -> int {
    if tabstop > 0 { tabstop as int } else { 1 }
}

/// The indent levels of the lines of `text`.
pub open spec fn levels(text: Seq<char>, ts: int) -> Seq<Option<int>> {
    Seq::new(line_count_spec(text) as nat, |i: int| indent_level(line_content(text, i), ts))
}

/// The block below a line of level `cur`, scanning from line `j`: where it
/// stops (the first line of level `cur` or less, or the end) and whether it
/// holds a deeper line. Blank lines do not stop it.
pub open spec fn block_from(lv: Seq<Option<int>>, cur: int, j: int) -> (int, bool)
    decreases lv.len() - j,
{
    if j < 0 || j >= lv.len() {
        (lv.len() as int, false)
    } else {
        match lv[j] {
            Some(l) => if l > cur {
                (block_from(lv, cur, j + 1).0, true)
            } else {
                (j, false)
            },
            None => block_from(lv, cur, j + 1),
        }
    }
}

/// `end` moved up past blank lines, but not above line `i`.
pub open spec fn trim_back(lv: Seq<Option<int>>, i: int, end: int) -> int
    decreases end,
{
    if 0 <= i < end < lv.len() && lv[end] is None {
        trim_back(lv, i, end - 1)
    } else {
        end
    }
}

/// The indent fold headed by line `i`, if it heads one: a non-blank line
/// followed by a block holding a deeper line becomes a closed fold down to
/// the block's last non-blank line.
pub open spec fn fold_for(lv: Seq<Option<int>>, i: int) -> Seq<Fold> {
    match lv[i] {
        None => seq![],
        Some(cur) => {
            let b = block_from(lv, cur, i + 1);
            if !b.1 {
                seq![]
            } else {
                let end = trim_back(lv, i, b.0 - 1);
                if end > i {
                    seq![Fold { start: i as usize, end: end as usize, closed: true }]
                } else {
                    seq![]
                }
            }
        },
    }
}

/// The indent folds headed by lines `0..k`, in line order.
pub open spec fn indent_folds(lv: Seq<Option<int>>, k: int) -> Seq<Fold>
    decreases k,
{
    if k <= 0 {
        seq![]
    } else {
        indent_folds(lv, k - 1) + fold_for(lv, k - 1)
    }
}

/// A level by its plain value.
pub open spec fn level_view(o: Option<usize>) -> Option<int> {
    match o {
        Some(x) => Some(x as int),
        None => None,
    }
}

proof fn lemma_lead_width_bound(t: Seq<char>, i: int, ts: int)
    requires
        0 <= i <= t.len(),
        ts >= 1,
    ensures
        0 <= lead_width(t, i, ts) <= (t.len() - i) * ts,
    decreases t.len() - i,
{
    if i < t.len() {
        lemma_lead_width_bound(t, i + 1, ts);
        assert((t.len() - i) * ts == (t.len() - (i + 1)) * ts + ts) by (nonlinear_arith);
    }
}

fn block_end(lv: &Vec<Option<usize>>, cur: usize, from: usize) -> (r: (usize, bool))
    requires
        from <= lv@.len(),
    ensures
        r.0 as int == block_from(lv@.map_values(|o: Option<usize>| level_view(o)), cur as int, from as int).0,
        r.1 == block_from(lv@.map_values(|o: Option<usize>| level_view(o)), cur as int, from as int).1,
        from <= r.0 <= lv@.len(),
{
    let ghost v = lv@.map_values(|o: Option<usize>| level_view(o));
    let mut j = from;
    let mut deeper = false;
    while j < lv.len()
        invariant
            from <= j <= lv@.len(),
            v == lv@.map_values(|o: Option<usize>| level_view(o)),
            block_from(v, cur as int, from as int).0 == block_from(v, cur as int, j as int).0,
            block_from(v, cur as int, from as int).1 == (deeper || block_from(v, cur as int, j as int).1),
        decreases lv@.len() - j,
    {
        assert(v[j as int] == level_view(lv@[j as int]));
        match lv[j] {
            Some(l) => {
                if l > cur {
                    deeper = true;
                } else {
                    return (j, deeper);
                }
            },
            None => {},
        }
        j += 1;
    }
    (j, deeper)
}

fn trim_blank_tail(lv: &Vec<Option<usize>>, i: usize, end: usize) -> (r: usize)
    requires
        i <= end < lv@.len(),
    ensures
        r as int == trim_back(lv@.map_values(|o: Option<usize>| level_view(o)), i as int, end as int),
        i <= r <= end,
{
    let ghost v = lv@.map_values(|o: Option<usize>| level_view(o));
    let mut e = end;
    while e > i && lv[e].is_none()
        invariant
            i <= e <= end < lv@.len(),
            v == lv@.map_values(|o: Option<usize>| level_view(o)),
            trim_back(v, i as int, e as int) == trim_back(v, i as int, end as int),
        decreases e,
    {
        assert(v[e as int] == level_view(lv@[e as int]));
        e -= 1;
    }
    if e > i {
        assert(v[e as int] == level_view(lv@[e as int]));
    }
    e
}

impl Buffer {
    /// The indent level of each line (see `indent_level`).
    fn indent_levels(&self) -> (r: Vec<Option<usize>>)
        requires
            self.text().len() * tab_width(self.tabstop) <= usize::MAX,
        ensures
            r@.map_values(|o: Option<usize>| level_view(o)) == levels(self.text(), tab_width(self.tabstop)),
    {
        let ts: usize = if self.tabstop > 0 { self.tabstop } else { 1 };
        let ghost want = levels(self.text(), ts as int);
        let n = self.line_count();
        let mut out: Vec<Option<usize>> = Vec::new();
        let mut l: usize = 0;
        while l < n
            invariant
                ts as int == tab_width(self.tabstop),
                self.text().len() * ts <= usize::MAX,
                n == line_count_spec(self.text()),
                want == levels(self.text(), ts as int),
                l <= n,
                out@.len() == l,
                forall|k: int| 0 <= k < l ==> level_view(#[trigger] out@[k]) == want[k],
            decreases n - l,
        {
            let t = chars_of(self.line_text(l).as_str());
            let ghost tv = line_content(self.text(), l as int);
            proof {
                crate::buffer::lemma_content_fits(self.text(), l as int);
                crate::rope::lemma_line_start(self.text(), l as int);
                lemma_lead_width_bound(tv, 0, ts as int);
                assert(tv.len() * ts <= self.text().len() * ts) by (nonlinear_arith)
                    requires
                        tv.len() <= self.text().len(),
                        ts >= 1;
            }
            let (a, b) = trim_bounds(&t, 0, t.len());
            assert(t@.subrange(0, t@.len() as int) =~= t@);
            if a == b {
                out.push(None);
            } else {
                let mut w: usize = 0;
                let mut i: usize = 0;
                let mut blank = true;
                while i < t.len() && blank
                    invariant
                        t@ == tv,
                        ts >= 1,
                        tv.len() * ts <= usize::MAX,
                        i <= tv.len(),
                        w <= i * ts,
                        blank ==> w + lead_width(tv, i as int, ts as int) == lead_width(tv, 0, ts as int),
                        !blank ==> w == lead_width(tv, 0, ts as int),
                    decreases tv.len() - i + if blank { 1int } else { 0int },
                {
                    proof {
                        assert(i * ts + ts == (i + 1) * ts) by (nonlinear_arith);
                        assert((i + 1) * ts <= tv.len() * ts) by (nonlinear_arith)
                            requires
                                i + 1 <= tv.len(),
                                ts >= 1;
                    }
                    if t[i] == ' ' {
                        w = w + 1;
                        i += 1;
                    } else if t[i] == '\t' {
                        w = w + ts;
                        i += 1;
                    } else {
                        blank = false;
                    }
                }
                out.push(Some(w));
            }
            let ghost k = l as int;
            assert(level_view(out@[k]) == want[k]);
            l += 1;
        }
        assert(out@.map_values(|o: Option<usize>| level_view(o)) =~= want);
        out
    }

    /// `:foldindent`: replaces the folds with indentation folds (see
    /// `fold_for`), closed, and puts the cursor at the top. Gives how many
    /// folds it made; with none to make nothing changes.
    pub fn fold_by_indent(&mut self) -> (r: usize)
        requires
            old(self).text().len() * tab_width(old(self).tabstop) <= usize::MAX,
        ensures
            ({
                let lv = levels(old(self).text(), tab_width(old(self).tabstop));
                let fs = indent_folds(lv, lv.len() as int);
                if fs.len() == 0 {
                    r == 0 && *final(self) == *old(self)
                } else {
                    &&& r == fs.len()
                    &&& final(self).folds@ == fs
                    &&& final(self).cursor_line == 0
                    &&& final(self).cursor_col == 0
                    &&& same_text(final(self), old(self))
                }
            }),
    {
        let lv = self.indent_levels();
        let ghost v = lv@.map_values(|o: Option<usize>| level_view(o));
        let n = lv.len();
        let mut folds: Vec<Fold> = Vec::new();
        let mut i: usize = 0;
        while i < n
            invariant
                n == lv@.len(),
                v == lv@.map_values(|o: Option<usize>| level_view(o)),
                i <= n,
                folds@ == indent_folds(v, i as int),
            decreases n - i,
        {
            assert(v[i as int] == level_view(lv@[i as int]));
            match lv[i] {
                None => {},
                Some(cur) => {
                    let (j, deeper) = block_end(&lv, cur, i + 1);
                    if deeper {
                        proof {
                            lemma_deeper_past(v, cur as int, i + 1);
                        }
                        let end = trim_blank_tail(&lv, i, j - 1);
                        if end > i {
                            folds.push(Fold { start: i, end: end, closed: true });
                        }
                    }
                },
            }
            assert(indent_folds(v, i + 1) == indent_folds(v, i as int) + fold_for(v, i as int));
            i += 1;
        }
        if folds.len() == 0 {
            return 0;
        }
        let count = folds.len();
        self.folds = folds;
        self.cursor_line = 0;
        self.cursor_col = 0;
        count
    }
}

/// A block holding a deeper line stops past its first line.
proof fn lemma_deeper_past(lv: Seq<Option<int>>, cur: int, j: int)
    requires
        0 <= j,
        block_from(lv, cur, j).1,
    ensures
        block_from(lv, cur, j).0 > j,
    decreases lv.len() - j,
{
    if j < lv.len() {
        match lv[j] {
            Some(l) => {
                if l > cur {
                    lemma_block_past(lv, cur, j + 1);
                }
            },
            None => {
                lemma_deeper_past(lv, cur, j + 1);
            },
        }
    }
}

/// A block scan from `j` stops at `j` or later.
proof fn lemma_block_past(lv: Seq<Option<int>>, cur: int, j: int)
    requires
        0 <= j <= lv.len(),
    ensures
        block_from(lv, cur, j).0 >= j,
    decreases lv.len() - j,
{
    if j < lv.len() {
        lemma_block_past(lv, cur, j + 1);
    }
}

// ---------------------------------------------------------------- indentation

/// Whether `c` is a blank of indentation: a space or a tab.
pub open spec fn is_blank(c: char) -> bool {
    c == ' ' || c == '\t'
}

/// The index of the first non-blank char of `t` from `i` on (its length
/// when there is none).
pub open spec fn blank_end(t: Seq<char>, i: int) -> int
    decreases t.len() - i,
{
    if i < 0 || i >= t.len() || !is_blank(t[i]) {
        if i < 0 { 0 } else if i > t.len() { t.len() as int } else { i }
    } else {
        blank_end(t, i + 1)
    }
}

/// The leading blanks of `t`.
pub open spec fn lead_blanks(t: Seq<char>) -> Seq<char> {
    t.subrange(0, blank_end(t, 0))
}

/// One level of indentation: `shiftwidth` spaces (at least one) when
/// `expandtab`, else a tab.
pub open spec fn indent_unit_spec(expandtab: bool, shiftwidth: usize) -> Seq<char> {
    if expandtab {
        repeat(seq![' '], if shiftwidth > 0 { shiftwidth as nat } else { 1 })
    } else {
        seq!['\t']
    }
}

/// The number of trailing spaces of `t` before `k`.
pub open spec fn trailing_spaces(t: Seq<char>, k: int) -> int
    decreases k,
{
    if k <= 0 || k > t.len() || t[k - 1] != ' ' {
        0
    } else {
        1 + trailing_spaces(t, k - 1)
    }
}

/// `base` less one indent level at its end: a trailing tab, else up to
/// `shiftwidth` (at least one) trailing spaces.
pub open spec fn dedent_one_spec(base: Seq<char>, shiftwidth: usize) -> Seq<char> {
    if base.len() > 0 && base.last() == '\t' {
        base.drop_last()
    } else {
        let sw: int = if shiftwidth > 0 { shiftwidth as int } else { 1 };
        let n = trailing_spaces(base, base.len() as int);
        let drop = if n < sw { n } else { sw };
        base.subrange(0, base.len() - drop)
    }
}

/// The statements that end a Python suite.
pub open spec fn suite_enders() -> Seq<Seq<char>> {
    seq!["return"@, "pass"@, "raise"@, "break"@, "continue"@]
}

/// Whether `t` is keyword `kw` as a whole word, possibly followed by more.
pub open spec fn starts_with_word(t: Seq<char>, kw: Seq<char>) -> bool {
    &&& kw.len() <= t.len()
    &&& t.subrange(0, kw.len() as int) == kw
    &&& (t.len() == kw.len() || !(alphanumeric(t[kw.len() as int]) || t[kw.len() as int] == '_'))
}

/// Whether a Python line is a suite-ending statement (`return`, `pass`,
/// `raise`, `break` or `continue` as a whole word), after which the next
/// line dedents.
pub open spec fn suite_ender(line: Seq<char>) -> bool {
    exists|k: int| 0 <= k < suite_enders().len() && starts_with_word(trim(line), #[trigger] suite_enders()[k])
}

/// The indentation of a line opened off line text `t`, split at `split`:
/// `t`'s leading blanks, one level more after an opening bracket (or, in
/// Python, a `:`) that ends the text before the split, one level less after
/// a Python suite-ending statement; only the copied blanks without
/// `smartindent`.
pub open spec fn auto_indent_spec(t: Seq<char>, split: int, smartindent: bool, python: bool, unit: Seq<char>, shiftwidth: usize) -> Seq<char> {
    let base = lead_blanks(t);
    let prefix = t.subrange(0, if split < t.len() { split } else { t.len() as int });
    let tr = trim_end(prefix);
    if !smartindent {
        base
    } else if tr.len() > 0 && (tr.last() == '{' || tr.last() == '(' || tr.last() == '[') {
        base + unit
    } else if python && tr.len() > 0 && tr.last() == ':' {
        base + unit
    } else if python && suite_ender(tr) {
        dedent_one_spec(base, shiftwidth)
    } else {
        base
    }
}

/// Whether a file name names Python source (`.py` or `.pyi`, any case).
pub open spec fn python_name(name: Seq<char>) -> bool {
    match extension_spec(name) {
        Some(ext) => str_lowercase(ext) == "py"@ || str_lowercase(ext) == "pyi"@,
        None => false,
    }
}

/// Whether `name` is a Python file name (`.py` or `.pyi`, any case).
pub fn is_python_name(name: &str) -> (r: bool)
    ensures
        r == python_name(name@),
{
    let v = chars_of(name);
    let dots = chars_of("..");
    proof {
        reveal_strlit("..");
    }
    if chars_eq(&v, &dots) {
        return false;
    }
    match find_last_char(&v, '.') {
        Some(i) => {
            if i == 0 {
                return false;
            }
            let n = v.len();
            let ext = string_from(&copy_range(&v, i + 1, n));
            let low = lowercase_str(ext.as_str());
            let lv = chars_of(low.as_str());
            let py = chars_of("py");
            let pyi = chars_of("pyi");
            chars_eq(&lv, &py) || chars_eq(&lv, &pyi)
        },
        None => false,
    }
}

/// `base` less one indent level at its end (see `dedent_one_spec`).
pub fn dedent_one(base: &str, shiftwidth: usize) -> (r: String)
    ensures
        r@ == dedent_one_spec(base@, shiftwidth),
{
    let v = chars_of(base);
    let n = v.len();
    if n > 0 && v[n - 1] == '\t' {
        return string_of(&v, 0, n - 1);
    }
    let sw: usize = if shiftwidth > 0 { shiftwidth } else { 1 };
    let mut k = n;
    let ghost total = trailing_spaces(v@, n as int);
    while k > 0 && v[k - 1] == ' '
        invariant
            k <= n == v@.len(),
            trailing_spaces(v@, k as int) + (n - k) == total,
        decreases k,
    {
        k -= 1;
    }
    let count = n - k;
    let drop = if count < sw { count } else { sw };
    string_of(&v, 0, n - drop)
}

/// Whether a (trimmed) Python line ends the current suite (see
/// `suite_ender`).
pub fn python_dedent_keyword(line: &str) -> (r: bool)
    ensures
        r == suite_ender(line@),
{
    let t = chars_of(trim_str(line).as_str());
    let kws = ["return", "pass", "raise", "break", "continue"];
    proof {
        reveal_strlit("return");
        reveal_strlit("pass");
        reveal_strlit("raise");
        reveal_strlit("break");
        reveal_strlit("continue");
        assert(kws@.len() == 5);
    }
    let mut k: usize = 0;
    while k < 5
        invariant
            k <= 5,
            t@ == trim(line@),
            forall|j: int| 0 <= j < 5 ==> (#[trigger] kws@[j])@ == suite_enders()[j],
            forall|j: int| 0 <= j < k ==> !starts_with_word(t@, #[trigger] suite_enders()[j]),
        decreases 5 - k,
    {
        let kw = chars_of(kws[k]);
        assert(kw@ == suite_enders()[k as int]);
        if kw.len() <= t.len() && starts_at(&t, 0, &kw) {
            proof {
                assert(t@.subrange(0, kw@.len() as int) =~= kw@);
            }
            if kw.len() == t.len() {
                assert(starts_with_word(t@, suite_enders()[k as int]));
                return true;
            }
            let c = t[kw.len()];
            if !(is_alphanumeric(c) || c == '_') {
                assert(starts_with_word(t@, suite_enders()[k as int]));
                return true;
            }
        } else {
            proof {
                if kw@.len() <= t@.len() && t@.subrange(0, kw@.len() as int) == kw@ {
                    assert forall|m: int| 0 <= m < kw@.len() implies t@[m] == kw@[m] by {
                        assert(t@.subrange(0, kw@.len() as int)[m] == t@[m]);
                    }
                }
            }
        }
        k += 1;
    }
    false
}

impl Buffer {
    /// One level of indentation for this buffer (see `indent_unit_spec`).
    pub fn indent_unit(&self) -> (r: String)
        ensures
            r@ == indent_unit_spec(self.expandtab, self.shiftwidth),
    {
        let mut out: Vec<char> = Vec::new();
        if self.expandtab {
            let n: u64 = if self.shiftwidth > 0 { self.shiftwidth as u64 } else { 1 };
            let mut sp: Vec<char> = Vec::new();
            sp.push(' ');
            proof {
                assert(sp@ =~= seq![' ']);
            }
            push_repeat(&mut out, &sp, n);
            assert(out@ =~= repeat(seq![' '], n as nat));
        } else {
            out.push('\t');
            assert(out@ =~= seq!['\t']);
        }
        string_from(&out)
    }

    /// The indentation for a line opened off `line` by splitting it at
    /// `split_col` (Enter), or below it (`o`, split at its length); 0 (as
    /// `O` passes) copies the indent with no bracket increase. `python`
    /// says whether the buffer is a Python file.
    pub fn auto_indent(&self, line: usize, split_col: usize, smartindent: bool, python: bool) -> (r: String)
        ensures
            r@ == auto_indent_spec(line_content(self.text(), line as int), split_col as int, smartindent, python,
                indent_unit_spec(self.expandtab, self.shiftwidth), self.shiftwidth),
    {
        let t = chars_of(self.line_text(line).as_str());
        let ghost tv = t@;
        let mut b: usize = 0;
        while b < t.len() && (t[b] == ' ' || t[b] == '\t')
            invariant
                b <= t@.len(),
                blank_end(tv, b as int) == blank_end(tv, 0),
                tv == t@,
            decreases t@.len() - b,
        {
            b += 1;
        }
        let base = string_of(&t, 0, b);
        if !smartindent {
            return base;
        }
        let cut = if split_col < t.len() { split_col } else { t.len() };
        let prefix = copy_range(&t, 0, cut);
        let e = skip_ws_back_exec(&prefix, 0, cut);
        proof {
            assert(prefix@.subrange(0, cut as int) =~= prefix@);
        }
        let tr = copy_range(&prefix, 0, e);
        let m = tr.len();
        if m > 0 && (tr[m - 1] == '{' || tr[m - 1] == '(' || tr[m - 1] == '[') {
            let mut out = chars_of(base.as_str());
            extend_chars(&mut out, chars_of(self.indent_unit().as_str()).as_slice());
            return string_from(&out);
        }
        if python && m > 0 && tr[m - 1] == ':' {
            let mut out = chars_of(base.as_str());
            extend_chars(&mut out, chars_of(self.indent_unit().as_str()).as_slice());
            return string_from(&out);
        }
        if python && python_dedent_keyword(string_from(&tr).as_str()) {
            return dedent_one(base.as_str(), self.shiftwidth);
        }
        base
    }
}

// ---------------------------------------------------------------- electric dedent

/// The number of spaces `t` starts with, from `i` on.
pub open spec fn space_run(t: Seq<char>, i: int) -> int
    decreases t.len() - i,
{
    if 0 <= i < t.len() && t[i] == ' ' {
        1 + space_run(t, i + 1)
    } else {
        0
    }
}

/// Whether typing `c` at column `col` of line text `t` dedents the line: a
/// closing bracket typed with `smartindent` on, past column 0, with only
/// blanks before the cursor.
pub open spec fn dedent_applies(t: Seq<char>, col: int, c: char, smartindent: bool) -> bool {
    &&& smartindent
    &&& (c == '}' || c == ')' || c == ']')
    &&& col > 0
    &&& forall|k: int| 0 <= k < col && k < t.len() ==> is_blank(#[trigger] t[k])
}

/// How many leading chars one dedent removes from line text `t`: a leading
/// tab, else up to `shiftwidth` (at least one) leading spaces.
pub open spec fn dedent_width(t: Seq<char>, shiftwidth: usize) -> int {
    if t.len() > 0 && t[0] == '\t' {
        1
    } else {
        let sw: int = if shiftwidth > 0 { shiftwidth as int } else { 1 };
        let n = space_run(t, 0);
        if n < sw { n } else { sw }
    }
}

proof fn lemma_space_run_bound(t: Seq<char>, i: int)
    requires
        0 <= i <= t.len(),
    ensures
        0 <= space_run(t, i) <= t.len() - i,
    decreases t.len() - i,
{
    if i < t.len() && t[i] == ' ' {
        lemma_space_run_bound(t, i + 1);
    }
}

impl Buffer {
    /// Smartindent's electric dedent: a closing bracket typed as the first
    /// non-blank of its line removes one indent level from the line's
    /// start (see `dedent_width`), the cursor keeping its place in the
    /// text. Gives whether it dedented; the caller still inserts the
    /// bracket.
    pub fn electric_dedent(&mut self, c: char, smartindent: bool) -> (r: bool)
        requires
            old(self).edit_seq < u64::MAX,
            old(self).sizes_ok(),
            dedent_applies(line_content(old(self).text(), old(self).cursor_line as int), old(self).cursor_col as int, c, smartindent)
                ==> dedent_width(line_content(old(self).text(), old(self).cursor_line as int), old(self).shiftwidth) <= old(self).cursor_col,
        ensures
            ({
                let t0 = old(self).text();
                let line = old(self).cursor_line as int;
                let t = line_content(t0, line);
                let w = dedent_width(t, old(self).shiftwidth);
                if !dedent_applies(t, old(self).cursor_col as int, c, smartindent) || w == 0 {
                    !r && *final(self) == *old(self)
                } else {
                    let s = char_idx_spec(t0, line, 0);
                    let e = char_idx_spec(t0, line, w);
                    let t1 = final(self).text();
                    let l2 = if line < num_lines(t1) - 1 { line } else { num_lines(t1) - 1 };
                    let want = old(self).cursor_col - w;
                    &&& r
                    &&& t1 == t0.subrange(0, s) + t0.subrange(e, t0.len() as int)
                    &&& final(self).history() == edit_model(old(self).history(), t1)
                    &&& final(self).edit_seq == old(self).edit_seq + 1
                    &&& final(self).cursor_line == l2
                    &&& final(self).cursor_col == if want < line_content(t1, l2).len() { want } else { line_content(t1, l2).len() as int }
                }
            }),
    {
        if !smartindent || !(c == '}' || c == ')' || c == ']') {
            return false;
        }
        let line = self.cursor_line;
        let col = self.cursor_col;
        if col == 0 {
            return false;
        }
        let t = chars_of(self.line_text(line).as_str());
        let ghost tv = t@;
        let mut k: usize = 0;
        while k < col && k < t.len()
            invariant
                tv == t@,
                tv == line_content(old(self).text(), old(self).cursor_line as int),
                *self == *old(self),
                line == old(self).cursor_line,
                col == old(self).cursor_col,
                k <= col,
                forall|j: int| 0 <= j < k && j < tv.len() ==> is_blank(#[trigger] tv[j]),
            decreases col - k,
        {
            if !(t[k] == ' ' || t[k] == '\t') {
                assert(!is_blank(tv[k as int]));
                return false;
            }
            k += 1;
        }
        let removed: usize = if t.len() > 0 && t[0] == '\t' {
            1
        } else {
            let mut n: usize = 0;
            while n < t.len() && t[n] == ' '
                invariant
                    tv == t@,
                    tv == line_content(old(self).text(), old(self).cursor_line as int),
                    *self == *old(self),
                    n <= tv.len(),
                    n + space_run(tv, n as int) == space_run(tv, 0),
                decreases tv.len() - n,
            {
                n += 1;
            }
            let sw: usize = if self.shiftwidth > 0 { self.shiftwidth } else { 1 };
            if n < sw { n } else { sw }
        };
        if removed == 0 {
            return false;
        }
        proof {
            lemma_space_run_bound(tv, 0);
        }
        let start = self.char_idx(line, 0);
        let end = self.char_idx(line, removed);
        proof {
            crate::buffer::lemma_char_idx_mono(self.text(), line as int, 0, removed as int);
            assert(removed <= tv.len());
            assert(dedent_applies(tv, col as int, c, smartindent));
            assert(removed == dedent_width(tv, self.shiftwidth));
            assert(start < end);
        }
        self.delete_char_range(start, end);
        let ghost mid = *self;
        let nl = rope_len_lines(&self.rope);
        proof {
            crate::rope::lemma_line_of_nonneg(self.text(), self.text().len() as int);
        }
        let l2 = if line < nl - 1 { line } else { nl - 1 };
        let c2 = self.clamp_col_insert(l2, col - removed);
        self.cursor_line = l2;
        self.cursor_col = c2;
        proof {
            self.lemma_same_history(&mid);
        }
        true
    }
}

} // verus!
