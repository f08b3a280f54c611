//! Running an Ex command on the buffer. A bare address moves the cursor;
//! `:s` rewrites lines as one undo step; `:set` changes the buffer's own
//! options and the case options of `:s`; `:earlier` and `:later` walk the
//! undo history; the write, edit and quit commands are checked against the
//! buffer and handed back as what the editor has to perform.
use vstd::prelude::*;
use crate::buffer::{
    Buffer, History, begin_model, commit_model, edit_model, undo_model, redo_model, modified,
    line_content, line_count_spec, last_line, char_idx_spec, first_nonws, format_name, small,
};
use crate::command::{
    ExPlan, ExPlanV, ex_plan_view, lines_view, SetAction, SetActionV, SetFlag, SetNumber,
    set_action, set_action_spec, ex_count, ex_count_spec, parse_substitute_body,
    parse_substitute_body_spec, far_plan, far_plan_spec, is_lit,
};
use crate::substitute::{substitute_lines, substitute_full_spec, sub_view};
use crate::text::{chars_of, string_from, extend_chars, trim, trim_start, trim_str};

verus! {

/// What Ex commands use beside the buffer: the case options of `:s` and
/// the last search pattern that an empty `:s` pattern stands for.
pub struct ExState {
    pub ignorecase: bool,
    pub smartcase: bool,
    pub last_search: Option<String>,
}

/// The model of an [`ExState`].
pub open spec fn state_view(s: ExState) -> (bool, bool, Option<Seq<char>>) {
    (s.ignorecase, s.smartcase, match s.last_search { Some(p) => Some(p@), None => None })
}

/// What is left for the editor once an Ex command has run on the buffer.
pub enum ExOutcome {
    /// Nothing more: show the message (none when it is empty).
    Done(String),
    /// Write the buffer: to `target` when given, else to its own file;
    /// with `force` over a newer file on disk; with `quit_after`, quit once
    /// the write succeeded.
    Write { target: Option<String>, force: bool, quit_after: bool },
    /// Read the buffer's file again, dropping its changes.
    Reload,
    /// Open this file.
    Open(String),
    /// Quit the editor.
    Quit,
    /// Turn an option of the editor on or off.
    Flag(SetFlag, bool),
    /// Set a numeric option of the editor.
    Number(SetNumber, usize),
    /// Set the color column (0 turns it off).
    ColorColumn(usize),
    /// `:cfar`: run the substitute `body`, whose pattern is `pattern`, in
    /// every file of the results list.
    Far { body: String, pattern: String },
    /// A command of the editor as a whole: its name, the rest of the line
    /// and its range.
    Pass { name: String, rest: String, range: Option<(usize, usize)> },
}

/// The model of an [`ExOutcome`].
pub enum ExOutcomeV {
    Done(Seq<char>),
    Write(Option<Seq<char>>, bool, bool),
    Reload,
    Open(Seq<char>),
    Quit,
    Flag(SetFlag, bool),
    Number(SetNumber, usize),
    ColorColumn(usize),
    Far(Seq<char>, Seq<char>),
    Pass(Seq<char>, Seq<char>, Option<(int, int)>),
}

/// An [`ExOutcome`] by its plain values.
pub open spec fn outcome_view(o: ExOutcome) -> ExOutcomeV {
    match o {
        ExOutcome::Done(m) => ExOutcomeV::Done(m@),
        ExOutcome::Write { target, force, quit_after } => ExOutcomeV::Write(
            match target { Some(t) => Some(t@), None => None },
            force,
            quit_after,
        ),
        ExOutcome::Reload => ExOutcomeV::Reload,
        ExOutcome::Open(p) => ExOutcomeV::Open(p@),
        ExOutcome::Quit => ExOutcomeV::Quit,
        ExOutcome::Flag(f, on) => ExOutcomeV::Flag(f, on),
        ExOutcome::Number(k, n) => ExOutcomeV::Number(k, n),
        ExOutcome::ColorColumn(n) => ExOutcomeV::ColorColumn(n),
        ExOutcome::Far { body, pattern } => ExOutcomeV::Far(body@, pattern@),
        ExOutcome::Pass { name, rest, range } => ExOutcomeV::Pass(name@, rest@, lines_view(range)),
    }
}

// ---------------------------------------------------------------- :s

/// The lines `:s` covers: `start` through `end`, the end clamped to the
/// last line.
pub open spec fn range_lines(t: Seq<char>, start: int, end: int) -> Seq<Seq<char>> {
    let stop = if end < last_line(t) { end } else { last_line(t) };
    Seq::new(if start <= stop { (stop - start + 1) as nat } else { 0 }, |k: int| line_content(t, start + k))
}

/// The chars the first `k` substituted lines bring in.
pub open spec fn new_total(es: Seq<(int, Seq<char>, Seq<char>)>, k: int) -> int
    decreases k,
{
    if k <= 0 { 0 } else { new_total(es, k - 1) + es[k - 1].2.len() }
}

/// The text with line `l`'s content (its line break kept) replaced by `new`.
pub open spec fn replace_line(t: Seq<char>, l: int, new: Seq<char>) -> Seq<char> {
    let from = char_idx_spec(t, l, 0);
    let to = char_idx_spec(t, l, line_content(t, l).len() as int);
    t.subrange(0, from) + new + t.subrange(to, t.len() as int)
}

/// One substituted line applied: replaced when its text changed.
pub open spec fn sub_step(t: Seq<char>, e: (int, Seq<char>, Seq<char>)) -> Seq<char> {
    if e.2 != e.1 { replace_line(t, e.0, e.2) } else { t }
}

/// The first `k` substituted lines applied, the last of them first, so
/// that each line number still means the line it meant before.
pub open spec fn apply_subs(t: Seq<char>, es: Seq<(int, Seq<char>, Seq<char>)>, k: int) -> Seq<char>
    decreases k,
{
    if k <= 0 || k > es.len() { t } else { apply_subs(sub_step(t, es[k - 1]), es, k - 1) }
}

/// Whether a substituted line from `j` on has a new text.
pub open spec fn changed_from(es: Seq<(int, Seq<char>, Seq<char>)>, j: int) -> bool {
    exists|k: int| j <= k < es.len() && (#[trigger] es[k]).2 != es[k].1
}

/// What `:s` with body `body` over `range` (else the cursor line) asks of
/// buffer `b`: the substituted lines and the pattern that was used, or the
/// message it is refused with. A body with no delimiter needs a pattern;
/// one with fewer than two fields is incomplete; then `substitute_full_spec`
/// decides over the lines covered; a result past the size the buffer can
/// hold is refused.
pub open spec fn sub_request(b: Buffer, s: (bool, bool, Option<Seq<char>>), body: Seq<char>, range: Option<(int, int)>) -> Result<(Seq<(int, Seq<char>, Seq<char>)>, Seq<char>), Seq<char>> {
    if trim_start(body).len() < 2 {
        Err("E486: pattern required"@)
    } else {
        match parse_substitute_body_spec(body) {
            None => Err("E486: incomplete substitute"@),
            Some((pat, rep, flags)) => {
                let (start, end) = match range {
                    Some(r) => r,
                    None => (b.cursor_line as int, b.cursor_line as int),
                };
                match substitute_full_spec(range_lines(b.text(), start, end), start, pat, rep, flags, s.0, s.1, s.2) {
                    Err(m) => Err(m),
                    Ok(es) => if small(b.text().len() + new_total(es, es.len() as int)) {
                        Ok((es, if pat.len() == 0 { s.2->0 } else { pat }))
                    } else {
                        Err("buffer too large"@)
                    },
                }
            },
        }
    }
}

/// The message of a `:s` that ran: whether a line changed, else the
/// pattern that found nothing.
pub open spec fn sub_message(es: Seq<(int, Seq<char>, Seq<char>)>, pat: Seq<char>) -> Seq<char> {
    if changed_from(es, 0) { "substitution complete"@ } else { "pattern not found: "@ + pat }
}

/// Buffer `b1` is `b0` after the substituted lines `es` were applied as
/// one undo step: the new text committed, the cursor kept on its line (or
/// the last one) at the first non-blank, the settings and view unchanged.
pub open spec fn substituted(b0: Buffer, b1: Buffer, es: Seq<(int, Seq<char>, Seq<char>)>) -> bool {
    let t1 = apply_subs(b0.text(), es, es.len() as int);
    let lc = line_count_spec(t1);
    &&& b1.history() == commit_model(edit_model(begin_model(b0.history()), t1))
    &&& b1.cursor_line == if (b0.cursor_line as int) < lc - 1 { b0.cursor_line as int } else { lc - 1 }
    &&& b1.cursor_col == first_nonws(line_content(t1, b1.cursor_line as int), 0)
    &&& b0.pending_text() is None ==> b1.undo_cursors() == if t1 != b0.text() {
        b0.undo_cursors().push((b0.cursor_line, b0.cursor_col))
    } else {
        b0.undo_cursors()
    }
    &&& b1.same_settings(&b0)
    &&& b1.same_view(&b0)
    &&& b1.edit_seq >= b0.edit_seq
    &&& b1.sizes_ok()
}

/// A `:s` that changed the text is one undo step: a single undo gives back
/// the text and undo history from before it, and redo the substituted text.
pub proof fn law_substitute_is_one_undo_step(b0: Buffer, b1: Buffer, es: Seq<(int, Seq<char>, Seq<char>)>)
    requires
        substituted(b0, b1, es),
        b0.history().pending is None,
        apply_subs(b0.text(), es, es.len() as int) != b0.text(),
    ensures
        undo_model(b1.history()).text == b0.text(),
        undo_model(b1.history()).undo == b0.history().undo,
        redo_model(undo_model(b1.history())).text == apply_subs(b0.text(), es, es.len() as int),
{
    crate::buffer::law_undo_restores_edit(b0.history(), apply_subs(b0.text(), es, es.len() as int));
}

proof fn lemma_new_total_mono(es: Seq<(int, Seq<char>, Seq<char>)>, j: int, k: int)
    requires
        0 <= j <= k <= es.len(),
    ensures
        0 <= new_total(es, j) <= new_total(es, k),
    decreases k,
{
    if j < k {
        lemma_new_total_mono(es, j, k - 1);
    } else if k > 0 {
        lemma_new_total_mono(es, k - 1, k - 1);
    }
}

fn text_eq(a: &String, b: &String) -> (r: bool)
    ensures
        r == (a@ == b@),
{
    crate::text::chars_eq(&chars_of(a.as_str()), &chars_of(b.as_str()))
}

fn lit(s: &str) -> (r: String)
    ensures
        r@ == s@,
{
    string_from(&chars_of(s))
}

fn concat2(a: &str, b: &str) -> (r: String)
    ensures
        r@ == a@ + b@,
{
    let mut v = chars_of(a);
    extend_chars(&mut v, &chars_of(b));
    string_from(&v)
}

fn concat3(a: &str, b: &str, c: &str) -> (r: String)
    ensures
        r@ == a@ + b@ + c@,
{
    let mut v = chars_of(a);
    extend_chars(&mut v, &chars_of(b));
    extend_chars(&mut v, &chars_of(c));
    string_from(&v)
}

/// The texts of lines `start..=stop`.
fn lines_between(buf: &Buffer, start: usize, end: usize) -> (r: Vec<String>)
    ensures
        crate::text::views(r@) == range_lines(buf.text(), start as int, end as int),
        start + r@.len() <= usize::MAX,
        r@.len() <= line_count_spec(buf.text()),
{
    let lc = buf.line_count();
    let last = lc - 1;
    let stop = if end < last { end } else { last };
    let ghost want = range_lines(buf.text(), start as int, end as int);
    let mut lines: Vec<String> = Vec::new();
    if start > stop {
        assert(crate::text::views(lines@) =~= want);
        return lines;
    }
    let mut k = start;
    while k <= stop
        invariant
            start <= k <= stop + 1,
            stop < lc,
            lc == line_count_spec(buf.text()),
            stop as int == (if (end as int) < last_line(buf.text()) { end as int } else { last_line(buf.text()) }),
            lines@.len() == k - start,
            forall|i: int| 0 <= i < lines@.len() ==> (#[trigger] lines@[i])@ == line_content(buf.text(), start + i),
        decreases stop + 1 - k,
    {
        lines.push(buf.line_text(k));
        k += 1;
    }
    assert(crate::text::views(lines@) =~= want);
    lines
}

/// Applies the substituted lines `plan` as one undo step, the last line
/// first (see `substituted`); whether any line changed.
fn apply_substitution(buf: &mut Buffer, plan: &Vec<(usize, String, String)>) -> (changed: bool)
    requires
        old(buf).sizes_ok(),
        old(buf).edit_seq + 2 * line_count_spec(old(buf).text()) + 2 <= u64::MAX,
        plan@.len() <= line_count_spec(old(buf).text()),
        small(old(buf).text().len() + new_total(plan@.map_values(|e: (usize, String, String)| sub_view(e)), plan@.len() as int)),
    ensures
        changed == changed_from(plan@.map_values(|e: (usize, String, String)| sub_view(e)), 0),
        substituted(*old(buf), *final(buf), plan@.map_values(|e: (usize, String, String)| sub_view(e))),
{
    let ghost b0 = *buf;
    let ghost es = plan@.map_values(|e: (usize, String, String)| sub_view(e));
    let ghost n = plan@.len() as int;
    let cur = buf.cursor_line;
    let ghost t0 = buf.text();
    let ghost h0 = buf.history();
    let ghost t1 = apply_subs(t0, es, n);
    proof {
        b0.lemma_saved_cursors();
        lemma_new_total_mono(es, 0, n);
    }
    buf.begin_edit();
    let ghost cursors = buf.saved_cursors();
    let mut j: usize = plan.len();
    let mut changed = false;
    while j > 0
        invariant
            j <= plan@.len(),
            n == plan@.len(),
            es == plan@.map_values(|e: (usize, String, String)| sub_view(e)),
            apply_subs(buf.text(), es, j as int) == t1,
            buf.history() == edit_model(begin_model(h0), buf.text()),
            buf.saved_cursors() == cursors,
            buf.cursor_line == b0.cursor_line,
            buf.cursor_col == b0.cursor_col,
            buf.same_settings(&b0),
            buf.same_view(&b0),
            buf.sizes_ok(),
            buf.edit_seq <= b0.edit_seq + 2 * (n - j),
            buf.edit_seq >= b0.edit_seq,
            b0.edit_seq + 2 * line_count_spec(t0) + 2 <= u64::MAX,
            n <= line_count_spec(t0),
            buf.text().len() + new_total(es, j as int) <= t0.len() + new_total(es, n),
            small(t0.len() + new_total(es, n)),
            changed == changed_from(es, j as int),
        decreases j,
    {
        let e = &plan[j - 1];
        let ghost before = buf.text();
        proof {
            lemma_new_total_mono(es, 0, j - 1);
            assert(sub_view(*e) == es[j - 1]);
        }
        let differs = !text_eq(&e.1, &e.2);
        if differs {
            let l = e.0;
            let from = buf.char_idx(l, 0);
            let len = buf.line_len(l);
            let to = buf.char_idx(l, len);
            buf.delete_char_range(from, to);
            let ghost mid = buf.text();
            proof {
                if from < to {
                    assert(mid =~= before.subrange(0, from as int) + before.subrange(to as int, before.len() as int));
                } else {
                    assert(mid =~= before.subrange(0, from as int) + before.subrange(to as int, before.len() as int));
                }
            }
            buf.insert_str_at(from, e.2.as_str());
            proof {
                assert(buf.text() =~= replace_line(before, l as int, e.2@));
            }
            changed = true;
        }
        proof {
            assert(buf.text() == sub_step(before, es[j - 1]));
            assert(apply_subs(before, es, j as int) == apply_subs(sub_step(before, es[j - 1]), es, j - 1));
            if differs {
                assert(changed_from(es, j - 1));
            } else if changed_from(es, j - 1) {
                let w = choose|w: int| j - 1 <= w < es.len() && (#[trigger] es[w]).2 != es[w].1;
                assert(w != j - 1);
                assert(changed_from(es, j as int));
            } else {
                if changed_from(es, j as int) {
                    let w = choose|w: int| j <= w < es.len() && (#[trigger] es[w]).2 != es[w].1;
                    assert(changed_from(es, j - 1));
                }
            }
        }
        j -= 1;
    }
    assert(buf.text() == t1);
    buf.commit_edit();
    assert(buf.history() == commit_model(edit_model(begin_model(h0), t1)));
    let lc = buf.line_count();
    let line = if cur < lc - 1 { cur } else { lc - 1 };
    let ghost bb = *buf;
    buf.cursor_line = line;
    buf.cursor_col = buf.first_non_blank(line);
    proof {
        buf.lemma_same_history(&bb);
    }
    proof {
        let lc1 = line_count_spec(t1);
        assert(buf.history() == commit_model(edit_model(begin_model(b0.history()), t1)));
        assert(buf.cursor_line == if (b0.cursor_line as int) < lc1 - 1 { b0.cursor_line as int } else { lc1 - 1 });
        assert(buf.cursor_col == first_nonws(line_content(t1, buf.cursor_line as int), 0));
        assert(b0.pending_text() is None ==> buf.undo_cursors() == if t1 != b0.text() {
            b0.undo_cursors().push((b0.cursor_line, b0.cursor_col))
        } else {
            b0.undo_cursors()
        });
        assert(buf.same_settings(&b0));
        assert(buf.same_view(&b0));
        assert(buf.edit_seq >= b0.edit_seq);
        assert(buf.sizes_ok());
    }
    assert(substituted(b0, *buf, es));
    changed
}

/// `:s` on the buffer (see `sub_request`, `sub_message`, `substituted`):
/// the message shown; a refused command leaves the buffer as it was.
fn run_substitute(buf: &mut Buffer, st: &ExState, body: &str, range: Option<(usize, usize)>) -> (m: String)
    requires
        old(buf).sizes_ok(),
        old(buf).edit_seq + 2 * line_count_spec(old(buf).text()) + 2 <= u64::MAX,
    ensures
        match sub_request(*old(buf), state_view(*st), body@, lines_view(range)) {
            Err(e) => m@ == e && *final(buf) == *old(buf),
            Ok((es, pat)) => m@ == sub_message(es, pat) && substituted(*old(buf), *final(buf), es),
        },
{
    let ghost b0 = *buf;
    let bc = chars_of(body);
    let skip = crate::text::skip_ws_exec(&bc, 0, bc.len());
    assert(bc@.subrange(0, bc@.len() as int) =~= bc@);
    if bc.len() - skip < 2 {
        return lit("E486: pattern required");
    }
    let (pat, rep, flags) = match parse_substitute_body(body) {
        None => {
            return lit("E486: incomplete substitute");
        },
        Some(x) => x,
    };
    let cur = buf.cursor_line;
    let (start, end) = match range {
        Some(r) => r,
        None => (cur, cur),
    };
    let lines = lines_between(buf, start, end);
    let ls: Option<&str> = match &st.last_search {
        Some(s) => Some(s.as_str()),
        None => None,
    };
    let plan = match substitute_lines(&lines, start, pat.as_str(), rep.as_str(), flags.as_str(), st.ignorecase, st.smartcase, ls) {
        Err(e) => {
            return e;
        },
        Ok(v) => v,
    };
    let ghost es = plan@.map_values(|e: (usize, String, String)| sub_view(e));
    let ghost n = plan@.len() as int;
    proof {
        assert(trim_start(body@).len() >= 2);
        assert(state_view(*st).2 == match ls { Some(p) => Some(p@), None => None::<Seq<char>> });
        assert(lines_view(range) == Some((start as int, end as int)) || (range is None && start == cur && end == cur));
        assert(substitute_full_spec(range_lines(b0.text(), start as int, end as int), start as int, pat@, rep@, flags@, st.ignorecase, st.smartcase, state_view(*st).2) == Ok::<Seq<(int, Seq<char>, Seq<char>)>, Seq<char>>(es));
        crate::substitute::lemma_substitute_len(crate::text::views(lines@), start as int, pat@, rep@, flags@, st.ignorecase, st.smartcase, state_view(*st).2);
        assert(es.len() == n);
        assert(sub_request(b0, state_view(*st), body@, lines_view(range)) == if small(b0.text().len() + new_total(es, n)) {
            Ok::<(Seq<(int, Seq<char>, Seq<char>)>, Seq<char>), Seq<char>>((es, if pat@.len() == 0 { state_view(*st).2->0 } else { pat@ }))
        } else {
            Err("buffer too large"@)
        });
    }
    // The size the buffer can hold.
    let limit: u64 = 0x1000_0000_0000_0000;
    let len0 = crate::rope::rope_len_chars(&buf.rope);
    let mut total: u64 = len0 as u64;
    let mut k: usize = 0;
    while k < plan.len()
        invariant
            k <= plan@.len(),
            n == plan@.len(),
            es.len() == n,
            es == plan@.map_values(|e: (usize, String, String)| sub_view(e)),
            total == len0 + new_total(es, k as int),
            total < limit,
            len0 == b0.text().len(),
            limit == 0x1000_0000_0000_0000,
            *buf == b0,
            sub_request(b0, state_view(*st), body@, lines_view(range)) == if small(b0.text().len() + new_total(es, n)) {
                Ok::<(Seq<(int, Seq<char>, Seq<char>)>, Seq<char>), Seq<char>>((es, if pat@.len() == 0 { state_view(*st).2->0 } else { pat@ }))
            } else {
                Err("buffer too large"@)
            },
        decreases plan@.len() - k,
    {
        let add = chars_of(plan[k].2.as_str()).len() as u64;
        assert(es[k as int].2 == plan@[k as int].2@);
        if add >= limit - total {
            proof {
                assert(new_total(es, k + 1) == new_total(es, k as int) + es[k as int].2.len());
                assert(len0 == b0.text().len());
                lemma_new_total_mono(es, k + 1, n);
                assert(!small(b0.text().len() + new_total(es, es.len() as int)));
            }
            return lit("buffer too large");
        }
        total = total + add;
        k += 1;
    }
    proof {
        assert(small(b0.text().len() + new_total(es, n)));
    }
    let changed = apply_substitution(buf, &plan);
    assert(sub_request(b0, state_view(*st), body@, lines_view(range)) == Ok::<(Seq<(int, Seq<char>, Seq<char>)>, Seq<char>), Seq<char>>((es, if pat@.len() == 0 { state_view(*st).2->0 } else { pat@ })));
    if changed {
        lit("substitution complete")
    } else {
        let p = if chars_of(pat.as_str()).len() == 0 {
            match &st.last_search {
                Some(s) => s.clone(),
                None => pat,
            }
        } else {
            pat
        };
        concat2("pattern not found: ", p.as_str())
    }
}

// ---------------------------------------------------------------- :earlier / :later

/// `k` undo steps.
pub open spec fn undo_n(h: History, k: nat) -> History
    decreases k,
{
    if k == 0 { h } else { undo_model(undo_n(h, (k - 1) as nat)) }
}

/// `k` redo steps.
pub open spec fn redo_n(h: History, k: nat) -> History
    decreases k,
{
    if k == 0 { h } else { redo_model(redo_n(h, (k - 1) as nat)) }
}

/// The least of three counts (none below zero).
pub open spec fn min3(a: int, b: int, c: int) -> nat {
    let m = if a < b { a } else { b };
    (if m < c { m } else { c }) as nat
}

/// How many of `n` undo steps buffer `b` takes: no more than its undo
/// history holds, nor than its edit counter can count.
pub open spec fn undo_steps(b: Buffer, n: usize) -> nat {
    min3(n as int, b.undo_texts().len() as int, u64::MAX - b.edit_seq)
}

/// How many of `n` redo steps buffer `b` takes.
pub open spec fn redo_steps(b: Buffer, n: usize) -> nat {
    min3(n as int, b.redo_texts().len() as int, u64::MAX - b.edit_seq)
}

/// Buffer `b1` is `b0` after `d` undo steps: the history walked back, the
/// cursor where the last step put it, nothing else changed.
pub open spec fn undone(b0: Buffer, b1: Buffer, d: nat) -> bool {
    let len = b0.undo_cursors().len();
    &&& b1.history() == undo_n(b0.history(), d)
    &&& b1.edit_seq == b0.edit_seq + d
    &&& b1.folds == b0.folds
    &&& b1.same_settings(&b0)
    &&& b1.same_view(&b0)
    &&& d <= len
    &&& b1.undo_cursors() == b0.undo_cursors().subrange(0, len - d)
    &&& d > 0 ==> b1.restored_cursor(b0.undo_cursors()[len - d])
    &&& d == 0 ==> b1 == b0
}

/// Buffer `b1` is `b0` after `d` redo steps.
pub open spec fn redone(b0: Buffer, b1: Buffer, d: nat) -> bool {
    let len = b0.redo_cursors().len();
    &&& b1.history() == redo_n(b0.history(), d)
    &&& b1.edit_seq == b0.edit_seq + d
    &&& b1.folds == b0.folds
    &&& b1.same_settings(&b0)
    &&& b1.same_view(&b0)
    &&& d <= len
    &&& b1.redo_cursors() == b0.redo_cursors().subrange(0, len - d)
    &&& d > 0 ==> b1.restored_cursor(b0.redo_cursors()[len - d])
    &&& d == 0 ==> b1 == b0
}

proof fn lemma_undo_n_len(h: History, k: nat)
    requires
        k <= h.undo.len(),
    ensures
        undo_n(h, k).undo.len() == h.undo.len() - k,
    decreases k,
{
    if k > 0 {
        lemma_undo_n_len(h, (k - 1) as nat);
    }
}

proof fn lemma_redo_n_front(x: History, k: nat)
    ensures
        redo_n(x, k + 1) == redo_n(redo_model(x), k),
    decreases k,
{
    assert(redo_n(x, k + 1) == redo_model(redo_n(x, k)));
    if k > 0 {
        lemma_redo_n_front(x, (k - 1) as nat);
        assert(redo_n(redo_model(x), k) == redo_model(redo_n(redo_model(x), (k - 1) as nat)));
    } else {
        assert(redo_n(x, 0) == x);
        assert(redo_n(redo_model(x), 0) == redo_model(x));
    }
}

/// `:later n` right after an `:earlier n` that took all `n` steps gives
/// the history back as it was: text, saved text, and both histories.
pub proof fn law_later_undoes_earlier(h: History, n: nat)
    requires
        n <= h.undo.len(),
    ensures
        redo_n(undo_n(h, n), n) == h,
    decreases n,
{
    if n > 0 {
        let g = undo_n(h, (n - 1) as nat);
        lemma_undo_n_len(h, (n - 1) as nat);
        crate::buffer::law_redo_after_undo(g);
        lemma_redo_n_front(undo_model(g), (n - 1) as nat);
        law_later_undoes_earlier(h, (n - 1) as nat);
    }
}

/// The message of `:earlier` / `:later` after `d` steps in direction `dir`.
pub open spec fn steps_message(d: nat, dir: Seq<char>) -> Seq<char> {
    crate::markdown::decimal(d) + " change"@ + (if d == 1 { Seq::<char>::empty() } else { seq!['s'] }) + dir
}

/// Takes up to `n` undo steps (redo steps when `!back`); the number taken.
fn step_history(buf: &mut Buffer, n: usize, back: bool) -> (d: usize)
    ensures
        back ==> d == undo_steps(*old(buf), n) && undone(*old(buf), *final(buf), d as nat),
        !back ==> d == redo_steps(*old(buf), n) && redone(*old(buf), *final(buf), d as nat),
{
    let ghost b0 = *buf;
    proof {
        b0.lemma_saved_cursors();
        assert(b0.undo_cursors().subrange(0, b0.undo_cursors().len() as int) =~= b0.undo_cursors());
        assert(b0.redo_cursors().subrange(0, b0.redo_cursors().len() as int) =~= b0.redo_cursors());
    }
    let mut done: usize = 0;
    let mut stuck = false;
    while done < n && buf.edit_seq < u64::MAX && !stuck
        invariant
            done <= n,
            stuck ==> (back ==> buf.undo_texts().len() == 0) && (!back ==> buf.redo_texts().len() == 0),
            buf.edit_seq == b0.edit_seq + done,
            back ==> undone(b0, *buf, done as nat) && buf.undo_texts().len() == b0.undo_texts().len() - done,
            !back ==> redone(b0, *buf, done as nat) && buf.redo_texts().len() == b0.redo_texts().len() - done,
            b0.undo_cursors().len() == b0.undo_texts().len(),
            b0.redo_cursors().len() == b0.redo_texts().len(),
        decreases n - done + if stuck { 0int } else { 1int },
    {
        let ghost prev = *buf;
        proof {
            prev.lemma_saved_cursors();
        }
        let moved = if back { buf.undo() } else { buf.redo() };
        if !moved {
            stuck = true;
            continue;
        }
        proof {
            let len = if back { b0.undo_cursors().len() } else { b0.redo_cursors().len() };
            if back {
                assert(buf.undo_cursors() =~= b0.undo_cursors().subrange(0, len - (done + 1)));
                assert(buf.undo_texts().len() == b0.undo_texts().len() - (done + 1));
            } else {
                assert(buf.redo_cursors() =~= b0.redo_cursors().subrange(0, len - (done + 1)));
                assert(buf.redo_texts().len() == b0.redo_texts().len() - (done + 1));
            }
        }
        done += 1;
    }
    done
}

// ---------------------------------------------------------------- :set

/// What `:set` shows when given nothing it knows.
pub open spec fn set_usage() -> Seq<char> {
    "Supported: [no]wrap [no]number [no]relativenumber [no]cursorline [no]list [no]ignorecase [no]smartcase [no]smartindent [no]expandtab [no]autopairs tabstop=N shiftwidth=N scrolloff=N textwidth=N updatetime=N colorcolumn=N ff={unix,dos,mac}"@
}

/// What is left of `:set` with action `a` once the buffer has its part:
/// an option of the editor, or the message to show.
pub open spec fn set_outcome(b: Buffer, a: SetActionV) -> ExOutcomeV {
    match a {
        SetActionV::Flag(f, on) => ExOutcomeV::Flag(f, on),
        SetActionV::ColorColumn(n) => ExOutcomeV::ColorColumn(n),
        SetActionV::ShowFileFormat => ExOutcomeV::Done("fileformat="@ + format_name(b.fileformat)),
        SetActionV::SetFileFormat(f) => ExOutcomeV::Done("fileformat="@ + format_name(f) + " (write to apply)"@),
        SetActionV::Number(k, n) => ExOutcomeV::Number(k, n),
        SetActionV::Error(m) => ExOutcomeV::Done(m),
        SetActionV::Usage => ExOutcomeV::Done(set_usage()),
    }
}

/// The buffer after `:set` with action `a`: its tab stop, shift width,
/// tab expansion and line-ending format are its own options.
pub open spec fn set_buffer(b: Buffer, a: SetActionV) -> Buffer {
    match a {
        SetActionV::Number(SetNumber::Tabstop, n) => Buffer { tabstop: n, ..b },
        SetActionV::Number(SetNumber::ShiftWidth, n) => Buffer { shiftwidth: n, ..b },
        SetActionV::Flag(SetFlag::ExpandTab, on) => Buffer { expandtab: on, ..b },
        SetActionV::SetFileFormat(f) => Buffer { fileformat: f, ..b },
        _ => b,
    }
}

/// The Ex state after `:set` with action `a`: the case options of `:s`.
pub open spec fn set_state(s: (bool, bool, Option<Seq<char>>), a: SetActionV) -> (bool, bool, Option<Seq<char>>) {
    match a {
        SetActionV::Flag(SetFlag::IgnoreCase, on) => (on, s.1, s.2),
        SetActionV::Flag(SetFlag::SmartCase, on) => (s.0, on, s.2),
        _ => s,
    }
}

/// `:set rest` (see `set_outcome`, `set_buffer`, `set_state`).
fn run_set(buf: &mut Buffer, st: &mut ExState, rest: &str) -> (r: ExOutcome)
    ensures
        outcome_view(r) == set_outcome(*old(buf), set_action_spec(rest@)),
        *final(buf) == set_buffer(*old(buf), set_action_spec(rest@)),
        state_view(*final(st)) == set_state(state_view(*old(st)), set_action_spec(rest@)),
{
    match set_action(rest) {
        SetAction::Flag(f, on) => {
            match f {
                SetFlag::ExpandTab => buf.expandtab = on,
                SetFlag::IgnoreCase => st.ignorecase = on,
                SetFlag::SmartCase => st.smartcase = on,
                _ => {},
            }
            ExOutcome::Flag(f, on)
        },
        SetAction::ColorColumn(n) => ExOutcome::ColorColumn(n),
        SetAction::ShowFileFormat => ExOutcome::Done(concat2("fileformat=", buf.fileformat.name())),
        SetAction::SetFileFormat(f) => {
            buf.fileformat = f;
            ExOutcome::Done(concat3("fileformat=", f.name(), " (write to apply)"))
        },
        SetAction::Number(k, n) => {
            match k {
                SetNumber::Tabstop => buf.tabstop = n,
                SetNumber::ShiftWidth => buf.shiftwidth = n,
                _ => {},
            }
            ExOutcome::Number(k, n)
        },
        SetAction::Error(m) => ExOutcome::Done(m),
        SetAction::Usage => ExOutcome::Done(lit("Supported: [no]wrap [no]number [no]relativenumber [no]cursorline [no]list [no]ignorecase [no]smartcase [no]smartindent [no]expandtab [no]autopairs tabstop=N shiftwidth=N scrolloff=N textwidth=N updatetime=N colorcolumn=N ff={unix,dos,mac}")),
    }
}

// ---------------------------------------------------------------- named commands

/// The message a quit without `!` is refused with while the buffer named
/// `name` has unsaved changes.
pub open spec fn unsaved_message(name: Seq<char>) -> Seq<char> {
    "unsaved changes in "@ + name + " -- use :qa! to discard or :wqa to save all"@
}

/// What the command `name` with the rest of the line `rest` (and range
/// `range`) leaves for the editor, on buffer `b`. `:set` as `set_outcome`;
/// `:earlier`/`:ea` and `:later`/`:lat` report the steps taken; `:w`/`:write` writes, to
/// the file named when one is; `:w!` writes over a newer file; `:wq`/`:x`
/// write and quit; `:wqa`/`:wqall`/`:xa` write a modified buffer and quit;
/// `:q`/`:quit`/`:qa`/`:qall`/`:quitall` quit unless the buffer has unsaved
/// changes; with `!` they quit whatever it holds; `:e`/`:edit` open the
/// file named and need one; `:e!`/`:edit!` open the file named, or read
/// the buffer's own file again; any other command is one of the editor
/// as a whole.
pub open spec fn named_outcome(b: Buffer, name: Seq<char>, rest: Seq<char>, range: Option<(int, int)>) -> ExOutcomeV {
    let arg = trim(rest);
    if name == "set"@ {
        set_outcome(b, set_action_spec(rest))
    } else if name == "earlier"@ || name == "ea"@ {
        ExOutcomeV::Done(steps_message(undo_steps(b, ex_count_spec(rest, 1, true)), " earlier"@))
    } else if name == "later"@ || name == "lat"@ {
        ExOutcomeV::Done(steps_message(redo_steps(b, ex_count_spec(rest, 1, true)), " later"@))
    } else if name == "w"@ || name == "write"@ {
        ExOutcomeV::Write(if arg.len() == 0 { None } else { Some(arg) }, false, false)
    } else if name == "w!"@ {
        ExOutcomeV::Write(None, true, false)
    } else if name == "wq"@ || name == "x"@ {
        ExOutcomeV::Write(None, false, true)
    } else if name == "wqa"@ || name == "wqall"@ || name == "xa"@ {
        if modified(b.history()) { ExOutcomeV::Write(None, false, true) } else { ExOutcomeV::Quit }
    } else if name == "q"@ || name == "quit"@ || name == "qa"@ || name == "qall"@ || name == "quitall"@ {
        if modified(b.history()) { ExOutcomeV::Done(unsaved_message(b.name_spec())) } else { ExOutcomeV::Quit }
    } else if name == "q!"@ || name == "quit!"@ || name == "qa!"@ || name == "qall!"@ {
        ExOutcomeV::Quit
    } else if name == "e"@ || name == "edit"@ {
        if arg.len() == 0 { ExOutcomeV::Done("E32: no file name"@) } else { ExOutcomeV::Open(arg) }
    } else if name == "e!"@ || name == "edit!"@ {
        if arg.len() == 0 { ExOutcomeV::Reload } else { ExOutcomeV::Open(arg) }
    } else {
        ExOutcomeV::Pass(name, rest, range)
    }
}

/// Buffer `b1` is `b0` after the command `name rest`: `:set` changes the
/// buffer's own options, `:earlier` and `:later` walk its history, and no
/// other command changes it.
pub open spec fn named_buffer(b0: Buffer, b1: Buffer, name: Seq<char>, rest: Seq<char>) -> bool {
    if name == "set"@ {
        b1 == set_buffer(b0, set_action_spec(rest))
    } else if name == "earlier"@ || name == "ea"@ {
        undone(b0, b1, undo_steps(b0, ex_count_spec(rest, 1, true)))
    } else if name == "later"@ || name == "lat"@ {
        redone(b0, b1, redo_steps(b0, ex_count_spec(rest, 1, true)))
    } else {
        b1 == b0
    }
}

/// The Ex state after the command `name rest`: only `:set` changes it.
pub open spec fn named_state(s: (bool, bool, Option<Seq<char>>), name: Seq<char>, rest: Seq<char>) -> (bool, bool, Option<Seq<char>>) {
    if name == "set"@ { set_state(s, set_action_spec(rest)) } else { s }
}

fn steps_text(d: usize, dir: &str) -> (r: String)
    ensures
        r@ == steps_message(d as nat, dir@),
{
    let mut v: Vec<char> = Vec::new();
    crate::markdown::push_decimal(&mut v, d as u128);
    extend_chars(&mut v, &chars_of(" change"));
    if d != 1 {
        v.push('s');
    }
    extend_chars(&mut v, &chars_of(dir));
    let r = string_from(&v);
    proof {
        assert(Seq::<char>::empty() + crate::markdown::decimal(d as nat) =~= crate::markdown::decimal(d as nat));
        if d == 1 {
            assert(r@ =~= steps_message(d as nat, dir@));
        } else {
            assert(r@ =~= steps_message(d as nat, dir@));
        }
    }
    r
}

/// Runs the command `name rest` (see `named_outcome`, `named_buffer`,
/// `named_state`).
fn run_named(buf: &mut Buffer, st: &mut ExState, name: String, rest: String, range: Option<(usize, usize)>) -> (r: ExOutcome)
    ensures
        outcome_view(r) == named_outcome(*old(buf), name@, rest@, lines_view(range)),
        named_buffer(*old(buf), *final(buf), name@, rest@),
        state_view(*final(st)) == named_state(state_view(*old(st)), name@, rest@),
{
    let nc = chars_of(name.as_str());
    let arg = trim_str(rest.as_str());
    let blank = chars_of(arg.as_str()).len() == 0;
    if is_lit(&nc, "set") {
        run_set(buf, st, rest.as_str())
    } else if is_lit(&nc, "earlier") || is_lit(&nc, "ea") {
        let d = step_history(buf, ex_count(rest.as_str(), 1, true), true);
        ExOutcome::Done(steps_text(d, " earlier"))
    } else if is_lit(&nc, "later") || is_lit(&nc, "lat") {
        let d = step_history(buf, ex_count(rest.as_str(), 1, true), false);
        ExOutcome::Done(steps_text(d, " later"))
    } else if is_lit(&nc, "w") || is_lit(&nc, "write") {
        ExOutcome::Write { target: if blank { None } else { Some(arg) }, force: false, quit_after: false }
    } else if is_lit(&nc, "w!") {
        ExOutcome::Write { target: None, force: true, quit_after: false }
    } else if is_lit(&nc, "wq") || is_lit(&nc, "x") {
        ExOutcome::Write { target: None, force: false, quit_after: true }
    } else if is_lit(&nc, "wqa") || is_lit(&nc, "wqall") || is_lit(&nc, "xa") {
        if buf.is_modified() {
            ExOutcome::Write { target: None, force: false, quit_after: true }
        } else {
            ExOutcome::Quit
        }
    } else if is_lit(&nc, "q") || is_lit(&nc, "quit") || is_lit(&nc, "qa") || is_lit(&nc, "qall") || is_lit(&nc, "quitall") {
        if buf.is_modified() {
            let n = buf.name();
            ExOutcome::Done(concat3("unsaved changes in ", n.as_str(), " -- use :qa! to discard or :wqa to save all"))
        } else {
            ExOutcome::Quit
        }
    } else if is_lit(&nc, "q!") || is_lit(&nc, "quit!") || is_lit(&nc, "qa!") || is_lit(&nc, "qall!") {
        ExOutcome::Quit
    } else if is_lit(&nc, "e") || is_lit(&nc, "edit") {
        if blank {
            ExOutcome::Done(lit("E32: no file name"))
        } else {
            ExOutcome::Open(arg)
        }
    } else if is_lit(&nc, "e!") || is_lit(&nc, "edit!") {
        if blank {
            ExOutcome::Reload
        } else {
            ExOutcome::Open(arg)
        }
    } else {
        ExOutcome::Pass { name, rest, range }
    }
}

// ---------------------------------------------------------------- a planned command

/// What the planned command `p` leaves for the editor, on buffer `b` with
/// Ex state `s`: a blank line nothing; a range that could not be read its
/// message; a bare address nothing more; `:s` its message (see
/// `sub_request`, `sub_message`); `:cfar` its substitute and pattern, or the
/// message it is refused with; any other command `named_outcome`.
pub open spec fn ex_outcome(b: Buffer, s: (bool, bool, Option<Seq<char>>), p: ExPlanV) -> ExOutcomeV {
    match p {
        ExPlanV::Nothing => ExOutcomeV::Done(Seq::<char>::empty()),
        ExPlanV::Fail(m) => ExOutcomeV::Done(m),
        ExPlanV::Goto(_) => ExOutcomeV::Done(Seq::<char>::empty()),
        ExPlanV::Substitute(body, range) => match sub_request(b, s, body, range) {
            Err(m) => ExOutcomeV::Done(m),
            Ok((es, pat)) => ExOutcomeV::Done(sub_message(es, pat)),
        },
        ExPlanV::Far(body) => match far_plan_spec(body) {
            Err(m) => ExOutcomeV::Done(m),
            Ok((sb, pat)) => ExOutcomeV::Far(sb, pat),
        },
        ExPlanV::Run(name, rest, range) => named_outcome(b, name, rest, range),
    }
}

/// Buffer `b1` is `b0` after the planned command `p`: a bare address puts
/// the cursor on the first non-blank of its line; `:s` applies its lines
/// when it is not refused; a named command as `named_buffer`; nothing
/// else changes the buffer.
pub open spec fn ex_buffer(b0: Buffer, b1: Buffer, s: (bool, bool, Option<Seq<char>>), p: ExPlanV) -> bool {
    match p {
        ExPlanV::Goto(l) => b1 == Buffer {
            cursor_line: l as usize,
            cursor_col: first_nonws(line_content(b0.text(), l), 0) as usize,
            ..b0
        },
        ExPlanV::Substitute(body, range) => match sub_request(b0, s, body, range) {
            Err(_) => b1 == b0,
            Ok((es, _)) => substituted(b0, b1, es),
        },
        ExPlanV::Run(name, rest, _) => named_buffer(b0, b1, name, rest),
        _ => b1 == b0,
    }
}

/// The Ex state after the planned command `p`.
pub open spec fn ex_state(s: (bool, bool, Option<Seq<char>>), p: ExPlanV) -> (bool, bool, Option<Seq<char>>) {
    match p {
        ExPlanV::Run(name, rest, _) => named_state(s, name, rest),
        _ => s,
    }
}

/// Runs the planned Ex command `plan` (from `plan_ex`) on the buffer: the
/// buffer and the Ex state change as `ex_buffer` and `ex_state` say, and
/// the result is what is left for the editor (`ex_outcome`).
pub fn run_plan(buf: &mut Buffer, st: &mut ExState, plan: ExPlan) -> (r: ExOutcome)
    requires
        old(buf).sizes_ok(),
        old(buf).edit_seq + 2 * line_count_spec(old(buf).text()) + 2 <= u64::MAX,
    ensures
        outcome_view(r) == ex_outcome(*old(buf), state_view(*old(st)), ex_plan_view(plan)),
        ex_buffer(*old(buf), *final(buf), state_view(*old(st)), ex_plan_view(plan)),
        state_view(*final(st)) == ex_state(state_view(*old(st)), ex_plan_view(plan)),
{
    match plan {
        ExPlan::Nothing => ExOutcome::Done(String::new()),
        ExPlan::Fail(m) => ExOutcome::Done(m),
        ExPlan::Goto(l) => {
            let c = buf.first_non_blank(l);
            buf.cursor_line = l;
            buf.cursor_col = c;
            ExOutcome::Done(String::new())
        },
        ExPlan::Substitute { body, range } => ExOutcome::Done(run_substitute(buf, st, body.as_str(), range)),
        ExPlan::Far(body) => match far_plan(body.as_str()) {
            Err(m) => ExOutcome::Done(m),
            Ok((sb, pat)) => ExOutcome::Far { body: sb, pattern: pat },
        },
        ExPlan::Run { name, rest, range } => run_named(buf, st, name, rest, range),
    }
}

/// Runs the Ex command line `raw` on the buffer: read as `plan_ex` reads
/// it (with the marks' lines `marks` and the line `visual_anchor` of a
/// Visual selection the command line was opened from), then run as
/// `run_plan` runs it.
pub fn run_ex(buf: &mut Buffer, st: &mut ExState, marks: &[(char, usize)], visual_anchor: Option<usize>, raw: &str) -> (r: ExOutcome)
    requires
        old(buf).sizes_ok(),
        old(buf).edit_seq + 2 * line_count_spec(old(buf).text()) + 2 <= u64::MAX,
        old(buf).cursor_line <= i64::MAX,
        forall|k: int| 0 <= k < marks@.len() ==> (#[trigger] marks@[k]).1 <= i64::MAX,
        crate::command::range_fits(trim(raw@), line_count_spec(old(buf).text()), old(buf).cursor_line as int, marks@),
    ensures
        ({
            let p = crate::command::ex_plan_spec(line_count_spec(old(buf).text()), old(buf).cursor_line as int, marks@, visual_anchor, raw@);
            &&& outcome_view(r) == ex_outcome(*old(buf), state_view(*old(st)), p)
            &&& ex_buffer(*old(buf), *final(buf), state_view(*old(st)), p)
            &&& state_view(*final(st)) == ex_state(state_view(*old(st)), p)
        }),
{
    proof {
        crate::buffer::lemma_last_line_le(buf.text());
    }
    let lc = buf.line_count();
    let plan = crate::command::plan_ex(lc, buf.cursor_line, marks, visual_anchor, raw);
    run_plan(buf, st, plan)
}

} // verus!
