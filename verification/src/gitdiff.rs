//! The git gutter: which lines of the buffer are added, modified or sit
//! after removed lines relative to HEAD, the HEAD text of removed lines,
//! and the changed words inside modified lines. The line and word diffs
//! themselves come from the `similar` crate.
use vstd::prelude::*;
use std::collections::HashMap;
use crate::text::{chars_of, line_spans, line_spans_from, lines, string_of, views};

verus! {

broadcast use vstd::std_specs::hash::group_hash_axioms;

/// A gutter sign.
#[derive(Debug, Clone, Copy, PartialEq, Eq, Structural)]
pub enum Sign {
    Added,
    Modified,
    Removed,
}

/// One operation of a line diff (`similar::DiffOp`).
#[derive(Debug, Clone, Copy, PartialEq, Eq, Structural)]
pub enum LineOp {
    Equal { old_index: usize, new_index: usize, len: usize },
    Delete { old_index: usize, old_len: usize, new_index: usize },
    Insert { old_index: usize, new_index: usize, new_len: usize },
    Replace { old_index: usize, old_len: usize, new_index: usize, new_len: usize },
}

/// The kind of one change of a word diff (`similar::ChangeTag`).
#[derive(Debug, Clone, Copy, PartialEq, Eq, Structural)]
pub enum ChangeKind {
    Equal,
    Delete,
    Insert,
}

/// The operations of the line diff of `old` against `new`
/// (`similar::TextDiff::from_lines(old, new).ops()`).
pub uninterp spec fn line_diff(old: Seq<char>, new: Seq<char>) -> Seq<LineOp>;

/// The changes of the word diff of `old` against `new`
/// (`similar::TextDiff::from_words(old, new).iter_all_changes()`), each as
/// its tag and its text.
pub uninterp spec fn word_diff(old: Seq<char>, new: Seq<char>) -> Seq<(ChangeKind, Seq<char>)>;

/// Whether an operation's ranges lie within texts of the given lengths
/// (a line diff has at most one line per character).
pub open spec fn op_fits(op: LineOp, old_len: int, new_len: int) -> bool {
    match op {
        LineOp::Equal { old_index, new_index, len } => old_index + len <= old_len && new_index + len <= new_len,
        LineOp::Delete { old_index, old_len: ol, new_index } => old_index + ol <= old_len && new_index <= new_len,
        LineOp::Insert { old_index, new_index, new_len: nl } => old_index <= old_len && new_index + nl <= new_len,
        LineOp::Replace { old_index, old_len: ol, new_index, new_len: nl } => old_index + ol <= old_len && new_index + nl <= new_len,
    }
}

/// The text that the equal and inserted changes of a diff spell.
pub open spec fn new_side(ch: Seq<(ChangeKind, Seq<char>)>) -> Seq<char>
    decreases ch.len(),
{
    if ch.len() == 0 {
        seq![]
    } else {
        new_side(ch.drop_last()) + if ch.last().0 == ChangeKind::Delete {
            seq![]
        } else {
            ch.last().1
        }
    }
}

/// `similar::TextDiff::from_lines(old, new).ops()`, each operation
/// converted variant for variant. Every operation lies within the texts.
#[verifier::external_body]
fn line_ops(old: &str, new: &str) -> (r: Vec<LineOp>)
    ensures
        r@ == line_diff(old@, new@),
        forall|k: int| 0 <= k < r@.len() ==> op_fits(#[trigger] r@[k], old@.len() as int, new@.len() as int),
{
    similar::TextDiff::from_lines(old, new).ops().iter().map(|op| match *op {
        similar::DiffOp::Equal { old_index, new_index, len } => LineOp::Equal { old_index, new_index, len },
        similar::DiffOp::Delete { old_index, old_len, new_index } => LineOp::Delete { old_index, old_len, new_index },
        similar::DiffOp::Insert { old_index, new_index, new_len } => LineOp::Insert { old_index, new_index, new_len },
        similar::DiffOp::Replace { old_index, old_len, new_index, new_len } => LineOp::Replace { old_index, old_len, new_index, new_len },
    }).collect()
}

/// `similar::TextDiff::from_words(old, new).iter_all_changes()`, each change
/// as its tag and text. The equal and inserted changes spell `new`.
#[verifier::external_body]
fn word_changes(old: &str, new: &str) -> (r: Vec<(ChangeKind, String)>)
    ensures
        r@.map_values(|c: (ChangeKind, String)| (c.0, c.1@)) == word_diff(old@, new@),
        new_side(r@.map_values(|c: (ChangeKind, String)| (c.0, c.1@))) == new@,
{
    similar::TextDiff::from_words(old, new).iter_all_changes().map(|c| {
        let tag = match c.tag() {
            similar::ChangeTag::Equal => ChangeKind::Equal,
            similar::ChangeTag::Delete => ChangeKind::Delete,
            similar::ChangeTag::Insert => ChangeKind::Insert,
        };
        (tag, c.value().to_string())
    }).collect()
}

/// The state of the span scan over the first changes of a word diff:
/// the closed spans, the current column in `new`, the open span.
pub open spec fn spans_fold(ch: Seq<(ChangeKind, Seq<char>)>) -> (Seq<(int, int)>, int, Option<(int, int)>)
    decreases ch.len(),
{
    if ch.len() == 0 {
        (seq![], 0, None)
    } else {
        let (spans, pos, cur) = spans_fold(ch.drop_last());
        let (tag, text) = ch.last();
        let n = text.len() as int;
        if tag == ChangeKind::Equal {
            (match cur { Some(s) => spans.push(s), None => spans }, pos + n, None)
        } else if tag == ChangeKind::Insert {
            (spans, pos + n, Some(match cur { Some(s) => (s.0, pos + n), None => (pos, pos + n) }))
        } else {
            (spans, pos, cur)
        }
    }
}

/// The char-column spans of `new` that differ from `old` at word
/// granularity: each maximal run of inserted words (deleted words between
/// them do not break a run) is one span.
pub open spec fn word_diff_spans_spec(old: Seq<char>, new: Seq<char>) -> Seq<(int, int)> {
    change_spans(word_diff(old, new))
}

/// The spans of the new side that the changes of a word diff insert: each
/// maximal run of inserted words (deleted words between them do not break
/// a run) is one span.
pub open spec fn change_spans(ch: Seq<(ChangeKind, Seq<char>)>) -> Seq<(int, int)> {
    let (spans, _, cur) = spans_fold(ch);
    match cur {
        Some(s) => spans.push(s),
        None => spans,
    }
}

proof fn lemma_spans_fold_pos(ch: Seq<(ChangeKind, Seq<char>)>)
    ensures
        spans_fold(ch).1 == new_side(ch).len(),
        spans_fold(ch).2 matches Some(s) ==> s.1 == spans_fold(ch).1,
    decreases ch.len(),
{
    if ch.len() > 0 {
        lemma_spans_fold_pos(ch.drop_last());
    }
}

/// The views of a span vector.
pub open spec fn span_view(v: Seq<(usize, usize)>) -> Seq<(int, int)> {
    v.map_values(|s: (usize, usize)| (s.0 as int, s.1 as int))
}

/// The char-column ranges in `new` that differ from `old`, at word
/// granularity -- a run of adjacent insert/delete word-changes is merged
/// into a single span.
pub fn word_diff_spans(old: &str, new: &str) -> (r: Vec<(usize, usize)>)
    ensures
        span_view(r@) == word_diff_spans_spec(old@, new@),
{
    let changes = word_changes(old, new);
    let new_len = chars_of(new).len();
    proof {
        assert(new_side(changes@.map_values(|c: (ChangeKind, String)| (c.0, c.1@))).len() == new_len);
    }
    spans_of_changes(&changes)
}

/// The spans the changes of a word diff insert into the new side (see
/// [`change_spans`]); each change is its tag and text.
pub fn spans_of_changes(changes: &Vec<(ChangeKind, String)>) -> (r: Vec<(usize, usize)>)
    requires
        new_side(changes@.map_values(|c: (ChangeKind, String)| (c.0, c.1@))).len() <= usize::MAX,
    ensures
        span_view(r@) == change_spans(changes@.map_values(|c: (ChangeKind, String)| (c.0, c.1@))),
{
    let ghost ch = changes@.map_values(|c: (ChangeKind, String)| (c.0, c.1@));
    let ghost total = new_side(ch).len();
    let mut spans: Vec<(usize, usize)> = Vec::new();
    let mut pos: usize = 0;
    let mut current: Option<(usize, usize)> = None;
    let mut k: usize = 0;
    proof {
        lemma_spans_fold_pos(ch);
        lemma_new_side_prefix(ch, ch.len() as int);
    }
    while k < changes.len()
        invariant
            k <= changes@.len(),
            ch == changes@.map_values(|c: (ChangeKind, String)| (c.0, c.1@)),
            ch.len() == changes@.len(),
            total == new_side(ch).len(),
            total <= usize::MAX,
            ({
                let (s, p, c) = spans_fold(ch.subrange(0, k as int));
                &&& span_view(spans@) == s
                &&& pos == p
                &&& match current {
                    Some(x) => c == Some((x.0 as int, x.1 as int)),
                    None => c is None,
                }
            }),
        decreases changes@.len() - k,
    {
        proof {
            lemma_spans_fold_pos(ch.subrange(0, k + 1));
            lemma_new_side_prefix(ch, k + 1);
            assert(ch.subrange(0, k + 1).drop_last() =~= ch.subrange(0, k as int));
        }
        let (tag, text) = (changes[k].0, &changes[k].1);
        let n = chars_of(text.as_str()).len();
        assert(ch[k as int] == (tag, text@));
        match tag {
            ChangeKind::Equal => {
                if let Some(span) = current {
                    spans.push(span);
                    assert(span_view(spans@) =~= span_view(spans@.drop_last()).push((span.0 as int, span.1 as int)));
                }
                current = None;
                pos = pos + n;
            },
            ChangeKind::Insert => {
                let end = pos + n;
                current = Some(match current {
                    Some((start, _)) => (start, end),
                    None => (pos, end),
                });
                pos = end;
            },
            ChangeKind::Delete => {},
        }
        k += 1;
    }
    assert(ch.subrange(0, ch.len() as int) =~= ch);
    if let Some(span) = current {
        spans.push(span);
        assert(span_view(spans@) =~= span_view(spans@.drop_last()).push((span.0 as int, span.1 as int)));
    }
    spans
}

proof fn lemma_new_side_prefix(ch: Seq<(ChangeKind, Seq<char>)>, k: int)
    requires
        0 <= k <= ch.len(),
    ensures
        new_side(ch.subrange(0, k)).len() <= new_side(ch).len(),
    decreases ch.len() - k,
{
    if k < ch.len() {
        lemma_new_side_prefix(ch, k + 1);
        assert(ch.subrange(0, k + 1).drop_last() =~= ch.subrange(0, k));
    } else {
        assert(ch.subrange(0, k) =~= ch);
    }
}


/// The lines of `s` (`str::lines`), as strings.
fn lines_of(s: &str) -> (r: Vec<String>)
    ensures
        views(r@) == lines(s@),
{
    let c = chars_of(s);
    let spans = line_spans(&c);
    let mut r: Vec<String> = Vec::new();
    let mut k: usize = 0;
    while k < spans.len()
        invariant
            k <= spans@.len(),
            c@ == s@,
            spans@.len() == line_spans_from(c@, 0).len(),
            forall|j: int| 0 <= j < spans@.len() ==> (#[trigger] spans@[j]).0 as int == line_spans_from(c@, 0)[j].0 && spans@[j].1 as int == line_spans_from(c@, 0)[j].1,
            forall|j: int| 0 <= j < spans@.len() ==> (#[trigger] spans@[j]).0 <= spans@[j].1 <= c@.len(),
            views(r@) == lines(s@).subrange(0, k as int),
        decreases spans@.len() - k,
    {
        let line = string_of(&c, spans[k].0, spans[k].1);
        assert(lines(s@)[k as int] == line@);
        let ghost before = r@;
        r.push(line);
        assert(views(r@) =~= views(before).push(line@));
        assert(lines(s@).subrange(0, k + 1) =~= lines(s@).subrange(0, k as int).push(lines(s@)[k as int]));
        k += 1;
    }
    assert(lines(s@).subrange(0, k as int) =~= lines(s@));
    r
}

/// The gutter state of one file against its HEAD content.
pub struct GitGutter {
    /// `None` means the file has no HEAD blob (new/untracked) -- diffed
    /// against an empty string, so the whole file shows as added.
    head_content: Option<String>,
    pub signs: HashMap<usize, Sign>,
    /// HEAD content of lines removed just before this (0-indexed, current)
    /// line.
    pub deleted_before: HashMap<usize, Vec<String>>,
    /// Char-column ranges on this (0-indexed, current) line that differ
    /// from its HEAD counterpart.
    pub word_diff: HashMap<usize, Vec<(usize, usize)>>,
    seq: Option<u64>,
}

/// The spec view of the gutter's three maps.
pub struct GutterView {
    pub signs: Map<usize, Sign>,
    pub deleted: Map<usize, Seq<Seq<char>>>,
    pub words: Map<usize, Seq<(int, int)>>,
}

/// The empty gutter view.
pub open spec fn empty_view() -> GutterView {
    GutterView { signs: Map::empty(), deleted: Map::empty(), words: Map::empty() }
}

/// `deleted[anchor]` with `line` appended.
pub open spec fn push_deleted(v: GutterView, anchor: usize, line: Seq<char>) -> GutterView {
    let prev = if v.deleted.contains_key(anchor) { v.deleted[anchor] } else { seq![] };
    GutterView { deleted: v.deleted.insert(anchor, prev.push(line)), ..v }
}

/// The gutter after a replace block's pairing step `k`.
pub open spec fn replace_step(v: GutterView, hl: Seq<Seq<char>>, cl: Seq<Seq<char>>, oi: int, ni: int, nl: int, last: int, k: int) -> GutterView {
    if oi + k >= hl.len() {
        v
    } else if k < nl {
        if ni + k < cl.len() {
            let spans = word_diff_spans_spec(hl[oi + k], cl[ni + k]);
            if spans.len() > 0 {
                GutterView { words: v.words.insert((ni + k) as usize, spans), ..v }
            } else {
                v
            }
        } else {
            v
        }
    } else {
        push_deleted(v, (if ni + nl < last { ni + nl } else { last }) as usize, hl[oi + k])
    }
}

/// The gutter after the pairing steps `0..k` of a replace block.
pub open spec fn replace_steps(v: GutterView, hl: Seq<Seq<char>>, cl: Seq<Seq<char>>, oi: int, ni: int, nl: int, last: int, k: int) -> GutterView
    decreases k,
{
    if k <= 0 {
        v
    } else {
        replace_step(replace_steps(v, hl, cl, oi, ni, nl, last, k - 1), hl, cl, oi, ni, nl, last, k - 1)
    }
}

/// `signs[i] = s` for `i` in `lo..hi`.
pub open spec fn set_signs(m: Map<usize, Sign>, lo: int, hi: int, s: Sign) -> Map<usize, Sign>
    decreases hi - lo,
{
    if hi <= lo {
        m
    } else {
        set_signs(m, lo, hi - 1, s).insert((hi - 1) as usize, s)
    }
}

/// `deleted[anchor]` with the HEAD lines `oi..oi+ol` (those that exist)
/// appended.
pub open spec fn push_deleted_run(v: GutterView, hl: Seq<Seq<char>>, anchor: usize, oi: int, ol: int) -> GutterView
    decreases ol,
{
    if ol <= 0 {
        v
    } else {
        let w = push_deleted_run(v, hl, anchor, oi, ol - 1);
        if oi + ol - 1 < hl.len() {
            push_deleted(w, anchor, hl[oi + ol - 1])
        } else {
            w
        }
    }
}

/// The gutter after one line-diff operation.
pub open spec fn apply_op(v: GutterView, op: LineOp, hl: Seq<Seq<char>>, cl: Seq<Seq<char>>, last: int) -> GutterView {
    match op {
        LineOp::Insert { new_index, new_len, .. } => GutterView {
            signs: set_signs(v.signs, new_index as int, new_index + new_len, Sign::Added),
            ..v
        },
        LineOp::Replace { old_index, old_len, new_index, new_len } => {
            let w = GutterView { signs: set_signs(v.signs, new_index as int, new_index + new_len, Sign::Modified), ..v };
            let steps = if old_len > new_len { old_len as int } else { new_len as int };
            replace_steps(w, hl, cl, old_index as int, new_index as int, new_len as int, last, steps)
        },
        LineOp::Delete { old_index, old_len, new_index } => {
            let anchor = (if new_index < last { new_index as int } else { last }) as usize;
            let w = push_deleted_run(v, hl, anchor, old_index as int, old_len as int);
            if w.signs.contains_key(anchor) {
                w
            } else {
                GutterView { signs: w.signs.insert(anchor, Sign::Removed), ..w }
            }
        },
        LineOp::Equal { .. } => v,
    }
}

/// The gutter after the first `k` operations.
pub open spec fn apply_ops(ops: Seq<LineOp>, hl: Seq<Seq<char>>, cl: Seq<Seq<char>>, last: int, k: int) -> GutterView
    decreases k,
{
    if k <= 0 {
        empty_view()
    } else {
        apply_op(apply_ops(ops, hl, cl, last, k - 1), ops[k - 1], hl, cl, last)
    }
}

/// The gutter for `current` against `head`: every operation of their line
/// diff applied in order -- inserted lines `Added`, replaced lines
/// `Modified` with the block's n-th old line paired with its n-th new line
/// for a word diff and its leftover old lines anchored after the block,
/// deleted runs anchored at the next surviving line (the last line at
/// most) which gets `Removed` unless it already has a sign.
pub open spec fn gutter_spec(head: Seq<char>, current: Seq<char>) -> GutterView {
    let hl = lines(head);
    let cl = lines(current);
    let last = if cl.len() > 0 { cl.len() - 1 } else { 0 };
    let ops = line_diff(head, current);
    apply_ops(ops, hl, cl, last, ops.len() as int)
}

impl GitGutter {
    /// The gutter's maps as spec values.
    pub closed spec fn view_of(&self) -> GutterView {
        GutterView {
            signs: self.signs@,
            deleted: self.deleted_before@.map_values(|v: Vec<String>| v@.map_values(|s: String| s@)),
            words: self.word_diff@.map_values(|v: Vec<(usize, usize)>| span_view(v@)),
        }
    }

    /// The HEAD content this gutter diffs against.
    pub closed spec fn head(&self) -> Seq<char> {
        match self.head_content {
            Some(h) => h@,
            None => seq![],
        }
    }

    /// The edit sequence the gutter was last computed for.
    pub closed spec fn seq_of(&self) -> Option<u64> {
        self.seq
    }

    /// A gutter against the given HEAD content (`None` for a file with no
    /// HEAD blob), not yet computed.
    pub fn with_head(head_content: Option<String>) -> (r: GitGutter)
        ensures
            r.head() == match head_content { Some(h) => h@, None => Seq::<char>::empty() },
            r.seq_of() is None,
            r.view_of() == empty_view(),
    {
        let r = GitGutter {
            head_content,
            signs: HashMap::new(),
            deleted_before: HashMap::new(),
            word_diff: HashMap::new(),
            seq: None,
        };
        assert(r.view_of().deleted =~= Map::<usize, Seq<Seq<char>>>::empty());
        assert(r.view_of().words =~= Map::<usize, Seq<(int, int)>>::empty());
        r
    }

    /// Recomputes signs against the current buffer text if `seq` (the
    /// buffer's edit sequence) changed since the last call; a no-op
    /// otherwise.
    pub fn refresh(&mut self, current: &str, seq: u64)
        ensures
            old(self).seq_of() == Some(seq) ==> final(self).view_of() == old(self).view_of(),
            old(self).seq_of() != Some(seq) ==> final(self).view_of() == gutter_spec(old(self).head(), current@),
            final(self).seq_of() == Some(seq),
            final(self).head() == old(self).head(),
    {
        if self.seq == Some(seq) {
            return;
        }
        self.seq = Some(seq);
        let head = match &self.head_content {
            Some(h) => h.clone(),
            None => String::new(),
        };
        assert(head@ == self.head());
        let ops = line_ops(head.as_str(), current);
        self.fill_from_ops(current, &ops);
    }

    /// Fills the gutter from the line diff `ops` of its HEAD content
    /// against `current` (see `apply_ops`), dropping what it held.
    pub fn fill_from_ops(&mut self, current: &str, ops: &Vec<LineOp>)
        requires
            forall|k: int| 0 <= k < ops@.len() ==> op_fits(#[trigger] ops@[k], old(self).head().len() as int, current@.len() as int),
        ensures
            final(self).view_of() == apply_ops(
                ops@,
                lines(old(self).head()),
                lines(current@),
                if lines(current@).len() > 0 { lines(current@).len() - 1 } else { 0 },
                ops@.len() as int,
            ),
            final(self).head() == old(self).head(),
            final(self).seq_of() == old(self).seq_of(),
    {
        let ghost seq0 = self.seq_of();
        self.signs.clear();
        self.deleted_before.clear();
        self.word_diff.clear();
        assert(self.view_of().deleted =~= empty_view().deleted);
        assert(self.view_of().words =~= empty_view().words);
        let head = match &self.head_content {
            Some(h) => h.clone(),
            None => String::new(),
        };
        assert(head@ == self.head());
        let head_lines = lines_of(head.as_str());
        let current_lines = lines_of(current);
        let ghost hl = lines(head@);
        let ghost cl = lines(current@);
        let last: usize = if current_lines.len() > 0 { current_lines.len() - 1 } else { 0 };
        let hn = chars_of(head.as_str()).len();
        let cn = chars_of(current).len();
        let mut k: usize = 0;
        while k < ops.len()
            invariant
                k <= ops@.len(),
                forall|j: int| 0 <= j < ops@.len() ==> op_fits(#[trigger] ops@[j], head@.len() as int, current@.len() as int),
                hn == head@.len(),
                cn == current@.len(),
                head@ == old(self).head(),
                self.head() == old(self).head(),
                self.seq_of() == seq0,
                views(head_lines@) == hl,
                views(current_lines@) == cl,
                hl == lines(head@),
                cl == lines(current@),
                last as int == if cl.len() > 0 { cl.len() - 1 } else { 0 },
                self.view_of() == apply_ops(ops@, hl, cl, last as int, k as int),
            decreases ops@.len() - k,
        {
            let op = ops[k];
            assert(op_fits(op, head@.len() as int, current@.len() as int));
            match op {
                LineOp::Insert { new_index, new_len, .. } => {
                    self.set_sign_range(new_index, new_index + new_len, Sign::Added);
                },
                LineOp::Replace { old_index, old_len, new_index, new_len } => {
                    self.set_sign_range(new_index, new_index + new_len, Sign::Modified);
                    let ghost w = self.view_of();
                    let steps = if old_len > new_len { old_len } else { new_len };
                    let mut j: usize = 0;
                    while j < steps
                        invariant
                            j <= steps,
                            steps as int == if old_len > new_len { old_len as int } else { new_len as int },
                            old_index + old_len <= hn,
                            new_index + new_len <= cn,
                            hn <= usize::MAX,
                            cn <= usize::MAX,
                            views(head_lines@) == hl,
                            views(current_lines@) == cl,
                            last as int == if cl.len() > 0 { cl.len() - 1 } else { 0 },
                            self.head() == old(self).head(),
                            self.seq_of() == seq0,
                            self.view_of() == replace_steps(w, hl, cl, old_index as int, new_index as int, new_len as int, last as int, j as int),
                        decreases steps - j,
                    {
                        if old_index < head_lines.len() && j < head_lines.len() - old_index {
                            assert(views(head_lines@)[old_index + j] == head_lines@[old_index + j]@);
                            if j < new_len {
                                if new_index + j < current_lines.len() {
                                    assert(views(current_lines@)[new_index + j] == current_lines@[new_index + j]@);
                                    let spans = word_diff_spans(head_lines[old_index + j].as_str(), current_lines[new_index + j].as_str());
                                    if spans.len() > 0 {
                                        self.set_words(new_index + j, spans);
                                    }
                                }
                            } else {
                                let anchor = if new_index + new_len < last { new_index + new_len } else { last };
                                let line = head_lines[old_index + j].clone();
                                self.push_deleted_line(anchor, line);
                            }
                        }
                        j += 1;
                    }
                },
                LineOp::Delete { old_index, old_len, new_index } => {
                    let anchor = if new_index < last { new_index } else { last };
                    let ghost v0 = self.view_of();
                    let mut j: usize = 0;
                    while j < old_len
                        invariant
                            j <= old_len,
                            old_index + old_len <= hn,
                            hn <= usize::MAX,
                            views(head_lines@) == hl,
                            self.head() == old(self).head(),
                            self.seq_of() == seq0,
                            self.view_of() == push_deleted_run(v0, hl, anchor, old_index as int, j as int),
                        decreases old_len - j,
                    {
                        if old_index + j < head_lines.len() {
                            assert(views(head_lines@)[old_index + j] == head_lines@[old_index + j]@);
                            let line = head_lines[old_index + j].clone();
                            self.push_deleted_line(anchor, line);
                        }
                        j += 1;
                    }
                    if !self.signs.contains_key(&anchor) {
                        self.signs.insert(anchor, Sign::Removed);
                    }
                },
                LineOp::Equal { .. } => {},
            }
            k += 1;
        }
    }

    /// Appends `line` to the removed lines anchored at `anchor`.
    fn push_deleted_line(&mut self, anchor: usize, line: String)
        ensures
            final(self).view_of() == push_deleted(old(self).view_of(), anchor, line@),
            final(self).head() == old(self).head(),
            final(self).seq_of() == old(self).seq_of(),
    {
        let ghost v0 = self.view_of();
        let mut v = match self.deleted_before.remove(&anchor) {
            Some(v) => v,
            None => Vec::new(),
        };
        let ghost prev = v@.map_values(|s: String| s@);
        assert(prev == if v0.deleted.contains_key(anchor) { v0.deleted[anchor] } else { Seq::<Seq<char>>::empty() });
        v.push(line);
        assert(v@.map_values(|s: String| s@) =~= prev.push(line@));
        self.deleted_before.insert(anchor, v);
        assert(self.view_of().deleted =~= push_deleted(v0, anchor, line@).deleted);
    }

    /// Records the changed-word spans of a line.
    fn set_words(&mut self, line: usize, spans: Vec<(usize, usize)>)
        ensures
            final(self).view_of() == (GutterView { words: old(self).view_of().words.insert(line, span_view(spans@)), ..old(self).view_of() }),
            final(self).head() == old(self).head(),
            final(self).seq_of() == old(self).seq_of(),
    {
        let ghost v0 = self.view_of();
        self.word_diff.insert(line, spans);
        assert(self.view_of().words =~= v0.words.insert(line, span_view(spans@)));
    }

    /// Sets the sign of every line in `lo..hi`.
    fn set_sign_range(&mut self, lo: usize, hi: usize, s: Sign)
        requires
            lo <= hi,
        ensures
            final(self).view_of() == (GutterView { signs: set_signs(old(self).view_of().signs, lo as int, hi as int, s), ..old(self).view_of() }),
            final(self).head() == old(self).head(),
            final(self).seq_of() == old(self).seq_of(),
    {
        let ghost v0 = self.view_of();
        let mut i = lo;
        while i < hi
            invariant
                lo <= i <= hi,
                self.view_of() == (GutterView { signs: set_signs(v0.signs, lo as int, i as int, s), ..v0 }),
                self.head() == old(self).head(),
                self.seq_of() == old(self).seq_of(),
            decreases hi - i,
        {
            self.signs.insert(i, s);
            i += 1;
        }
    }
}

} // verus!
