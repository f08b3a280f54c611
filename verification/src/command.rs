//! The command line: history, Ex ranges and what an Ex command line asks
//! for (a move, a substitute, `:cfar`, or a named command with its range),
//! the arguments of `:set`, counts and buffer steps, and taking substitute
//! bodies apart.
use vstd::prelude::*;
use crate::key::Key;
use crate::text::{
    alphanumeric, chars_eq, chars_of, copy_range, is_alphanumeric, is_digit, is_whitespace, is_ws,
    string_from, trim_start, views,
};

verus! {

/// The most command lines the history keeps.
pub const MAX_HISTORY: usize = 200;

/// The history after entering `line`: empty lines and a repeat of the
/// newest entry are not recorded; past the cap, the oldest entry goes.
pub open spec fn history_after(h: Seq<Seq<char>>, line: Seq<char>) -> Seq<Seq<char>> {
    if line.len() == 0 || (h.len() > 0 && h.last() == line) {
        h
    } else if h.len() + 1 > MAX_HISTORY {
        h.push(line).drop_first()
    } else {
        h.push(line)
    }
}

/// Records an entered command line in the history.
pub fn push_history(hist: &mut Vec<String>, line: &str)
    ensures
        views(final(hist)@) == history_after(views(old(hist)@), line@),
{
    let lc = chars_of(line);
    if lc.len() == 0 {
        return;
    }
    let n = hist.len();
    if n > 0 {
        let lastc = chars_of(hist[n - 1].as_str());
        if chars_eq(&lastc, &lc) {
            assert(views(hist@).last() == hist@[n - 1]@);
            return;
        }
    }
    let ghost h0 = views(hist@);
    hist.push(string_from(&lc));
    assert(views(hist@) =~= h0.push(line@));
    if hist.len() > MAX_HISTORY {
        let _ = hist.remove(0);
        assert(views(hist@) =~= h0.push(line@).drop_first());
    }
}

/// Whether a command name takes a file path argument.
pub open spec fn is_path_command_spec(cmd: Seq<char>) -> bool {
    ||| cmd == "e"@ ||| cmd == "edit"@ ||| cmd == "e!"@ ||| cmd == "edit!"@
    ||| cmd == "w"@ ||| cmd == "write"@ ||| cmd == "sav"@ ||| cmd == "saveas"@
    ||| cmd == "tabnew"@ ||| cmd == "sp"@ ||| cmd == "split"@ ||| cmd == "vsp"@
    ||| cmd == "vs"@ ||| cmd == "vsplit"@
}

/// Whether a command name takes a file path argument.
pub fn is_path_command(cmd: &str) -> (r: bool)
    ensures
        r == is_path_command_spec(cmd@),
{
    let c = chars_of(cmd);
    let names = [
        "e", "edit", "e!", "edit!", "w", "write", "sav", "saveas", "tabnew", "sp", "split", "vsp",
        "vs", "vsplit",
    ];
    let mut i: usize = 0;
    while i < names.len()
        invariant
            c@ == cmd@,
            i <= names@.len(),
            names@ == seq!["e", "edit", "e!", "edit!", "w", "write", "sav", "saveas", "tabnew", "sp", "split", "vsp", "vs", "vsplit"],
            forall|k: int| 0 <= k < i ==> (#[trigger] names@[k])@ != cmd@,
        decreases names@.len() - i,
    {
        if chars_eq(&c, &chars_of(names[i])) {
            return true;
        }
        i += 1;
    }
    assert(!is_path_command_spec(cmd@)) by {
        assert(names@[0]@ != cmd@);
        assert(names@[1]@ != cmd@);
        assert(names@[2]@ != cmd@);
        assert(names@[3]@ != cmd@);
        assert(names@[4]@ != cmd@);
        assert(names@[5]@ != cmd@);
        assert(names@[6]@ != cmd@);
        assert(names@[7]@ != cmd@);
        assert(names@[8]@ != cmd@);
        assert(names@[9]@ != cmd@);
        assert(names@[10]@ != cmd@);
        assert(names@[11]@ != cmd@);
        assert(names@[12]@ != cmd@);
        assert(names@[13]@ != cmd@);
    }
    false
}

/// The index of the first whitespace char of `s`, or its length.
pub open spec fn first_ws(s: Seq<char>, i: int) -> int
    decreases s.len() - i,
{
    if i >= s.len() || is_ws(s[i]) {
        i
    } else {
        first_ws(s, i + 1)
    }
}

/// A command line split at its first whitespace char into the command and
/// the rest (which keeps that whitespace).
pub fn split_command(cmd: &str) -> (r: (String, String))
    ensures
        r.0@ == cmd@.subrange(0, first_ws(cmd@, 0)),
        r.1@ == cmd@.subrange(first_ws(cmd@, 0), cmd@.len() as int),
{
    let c = chars_of(cmd);
    let mut i: usize = 0;
    while i < c.len() && !is_whitespace(c[i])
        invariant
            i <= c@.len(),
            c@ == cmd@,
            first_ws(c@, i as int) == first_ws(c@, 0),
        decreases c@.len() - i,
    {
        i += 1;
    }
    (string_from(&copy_range(&c, 0, i)), string_from(&copy_range(&c, i, c.len())))
}

/// Whether a command name is a substitute: `s` alone, or `s` followed by a
/// non-alphanumeric delimiter (not `:sort`, `:set`, `:sp`).
pub open spec fn is_substitute_spec(name: Seq<char>) -> bool {
    name.len() > 0 && name[0] == 's' && (name.len() == 1 || !alphanumeric(name[1]))
}

/// Whether a command name is a substitute.
pub fn is_substitute(name: &str) -> (r: bool)
    ensures
        r == is_substitute_spec(name@),
{
    let c = chars_of(name);
    if c.len() == 0 || c[0] != 's' {
        return false;
    }
    if c.len() == 1 {
        return true;
    }
    !is_alphanumeric(c[1])
}

/// Whether a command name is `cfar` directly followed by a non-alphanumeric
/// delimiter.
pub open spec fn is_far_spec(name: Seq<char>) -> bool {
    name.len() > 4 && name.subrange(0, 4) == "cfar"@ && !alphanumeric(name[4])
}

/// Whether a command name is `cfar` directly followed by a delimiter.
pub fn is_far(name: &str) -> (r: bool)
    ensures
        r == is_far_spec(name@),
{
    let c = chars_of(name);
    let cfar = chars_of("cfar");
    proof {
        reveal_strlit("cfar");
    }
    if c.len() <= 4 || !crate::text::starts_at(&c, 0, &cfar) {
        return false;
    }
    !is_alphanumeric(c[4])
}

/// `acc` with `c` appended to its last part.
pub open spec fn push_last(acc: Seq<Seq<char>>, c: char) -> Seq<Seq<char>> {
    acc.update(acc.len() - 1, acc.last().push(c))
}

/// The fields of a substitute body after its delimiter, from `t[i]` on:
/// split at each unescaped delimiter `d`; `\` before `d` gives a literal
/// `d`; any other `\` is kept with the char after it.
pub open spec fn sub_split(t: Seq<char>, d: char, i: int, acc: Seq<Seq<char>>) -> Seq<Seq<char>>
    decreases t.len() - i,
{
    if i < 0 || i >= t.len() {
        acc
    } else if t[i] == '\\' && i + 1 < t.len() && t[i + 1] == d {
        sub_split(t, d, i + 2, push_last(acc, d))
    } else if t[i] == '\\' {
        if i + 1 < t.len() {
            sub_split(t, d, i + 2, push_last(push_last(acc, '\\'), t[i + 1]))
        } else {
            sub_split(t, d, i + 1, push_last(acc, '\\'))
        }
    } else if t[i] == d {
        sub_split(t, d, i + 1, acc.push(seq![]))
    } else {
        sub_split(t, d, i + 1, push_last(acc, t[i]))
    }
}

/// A substitute body `s<d>pat<d>repl<d>flags` (leading whitespace
/// allowed, `d` not alphanumeric) as its raw pattern, replacement and flags;
/// `None` without at least a pattern and a replacement field.
pub open spec fn parse_substitute_body_spec(body: Seq<char>) -> Option<(Seq<char>, Seq<char>, Seq<char>)> {
    let t = trim_start(body);
    if t.len() < 2 || t[0] != 's' || alphanumeric(t[1]) {
        None
    } else {
        let parts = sub_split(t, t[1], 2, seq![seq![]]);
        if parts.len() < 2 {
            None
        } else {
            Some((parts[0], parts[1], if parts.len() > 2 { parts[2] } else { seq![] }))
        }
    }
}

/// Takes a substitute body apart into raw pattern, replacement and flags.
pub fn parse_substitute_body(body: &str) -> (r: Option<(String, String, String)>)
    ensures
        match r {
            Some(x) => parse_substitute_body_spec(body@) == Some((x.0@, x.1@, x.2@)),
            None => parse_substitute_body_spec(body@) is None,
        },
{
    let b = chars_of(body);
    let start = crate::text::skip_ws_exec(&b, 0, b.len());
    assert(b@.subrange(0, b@.len() as int) =~= b@);
    let t = copy_range(&b, start, b.len());
    let ghost tt = t@;
    assert(tt == trim_start(body@));
    if t.len() < 2 || t[0] != 's' || is_alphanumeric(t[1]) {
        return None;
    }
    let d = t[1];
    let mut done: Vec<Vec<char>> = Vec::new();
    let mut cur: Vec<char> = Vec::new();
    let mut i: usize = 2;
    assert(crate::text::char_views(done@).push(cur@) =~= seq![seq![]]);
    while i < t.len()
        invariant
            2 <= i <= t@.len(),
            t@ == tt,
            sub_split(tt, d, 2, seq![seq![]]) == sub_split(tt, d, i as int, crate::text::char_views(done@).push(cur@)),
        decreases t@.len() - i,
    {
        let ghost acc = crate::text::char_views(done@).push(cur@);
        let c = t[i];
        if c == '\\' && i + 1 < t.len() && t[i + 1] == d {
            cur.push(d);
            assert(crate::text::char_views(done@).push(cur@) =~= push_last(acc, d));
            i += 2;
        } else if c == '\\' {
            if i + 1 < t.len() {
                cur.push(c);
                cur.push(t[i + 1]);
                assert(crate::text::char_views(done@).push(cur@) =~= push_last(push_last(acc, '\\'), tt[i + 1]));
                i += 2;
            } else {
                cur.push(c);
                assert(crate::text::char_views(done@).push(cur@) =~= push_last(acc, '\\'));
                i += 1;
            }
        } else if c == d {
            let ghost old_done = done@;
            done.push(cur);
            cur = Vec::new();
            assert(crate::text::char_views(done@) =~= crate::text::char_views(old_done).push(acc.last()));
            assert(crate::text::char_views(done@).push(cur@) =~= acc.push(seq![]));
            i += 1;
        } else {
            cur.push(c);
            assert(crate::text::char_views(done@).push(cur@) =~= push_last(acc, c));
            i += 1;
        }
    }
    let ghost parts = crate::text::char_views(done@).push(cur@);
    assert(parts == sub_split(tt, d, 2, seq![seq![]]));
    if done.len() < 1 {
        return None;
    }
    let p0 = string_from(&done[0]);
    if done.len() == 1 {
        assert(parts[1] == cur@);
        return Some((p0, string_from(&cur), String::new()));
    }
    let p1 = string_from(&done[1]);
    let flags = if done.len() == 2 { string_from(&cur) } else { string_from(&done[2]) };
    assert(parts[0] == done@[0]@);
    assert(parts[1] == done@[1]@);
    proof {
        reveal_strlit("");
    }
    Some((p0, p1, flags))
}

/// A char that may stand in an Ex range before a command.
pub open spec fn range_char(c: char) -> bool {
    is_digit(c) || c == '.' || c == '$' || c == '%' || c == '+' || c == '-' || c == ',' || c == ';' || c == ' '
}

/// The pattern of a substitute from `t[j]` on, up to the unescaped
/// delimiter `d` (escapes kept as written).
pub open spec fn sub_pat_scan(t: Seq<char>, d: char, j: int) -> Seq<char>
    decreases t.len() - j,
{
    if j < 0 || j >= t.len() {
        seq![]
    } else if t[j] == '\\' && j + 1 < t.len() {
        seq![t[j], t[j + 1]] + sub_pat_scan(t, d, j + 2)
    } else if t[j] == d {
        seq![]
    } else {
        seq![t[j]] + sub_pat_scan(t, d, j + 1)
    }
}

/// The pattern of an in-progress substitute, looking for its `s` at or
/// after `i`: the first `s` preceded only by range chars and followed by a
/// delimiter that is neither alphanumeric nor a space; `None` at an `s` that
/// ends the line, or when the pattern is empty.
pub open spec fn subst_pat_from(t: Seq<char>, i: int) -> Option<Seq<char>>
    decreases t.len() - i,
{
    if i < 0 || i >= t.len() {
        None
    } else if t[i] != 's' || !(forall|k: int| 0 <= k < i ==> range_char(#[trigger] t[k])) {
        subst_pat_from(t, i + 1)
    } else if i + 1 >= t.len() {
        None
    } else if alphanumeric(t[i + 1]) || t[i + 1] == ' ' {
        subst_pat_from(t, i + 1)
    } else {
        let p = sub_pat_scan(t, t[i + 1], i + 2);
        if p.len() == 0 { None } else { Some(p) }
    }
}

/// The pattern of an in-progress `[range]s/pat/...` command line.
pub fn substitute_pattern(line: &str) -> (r: Option<String>)
    ensures
        match r {
            Some(p) => subst_pat_from(line@, 0) == Some(p@),
            None => subst_pat_from(line@, 0) is None,
        },
{
    let c = chars_of(line);
    let ghost t = c@;
    let n = c.len();
    let mut prefix_ok = true;
    let mut i: usize = 0;
    while i < n
        invariant
            i <= n == t.len(),
            c@ == t,
            t == line@,
            prefix_ok == (forall|k: int| 0 <= k < i ==> range_char(#[trigger] t[k])),
            subst_pat_from(t, 0) == subst_pat_from(t, i as int),
        decreases n - i,
    {
        let ch = c[i];
        if ch == 's' && prefix_ok {
            if i + 1 >= n {
                return None;
            }
            let d = c[i + 1];
            if !(is_alphanumeric(d) || d == ' ') {
                let mut pat: Vec<char> = Vec::new();
                let mut j = i + 2;
                while j < n
                    invariant
                        i + 2 <= j,
                        n == t.len(),
                        c@ == t,
                        pat@ + sub_pat_scan(t, d, j as int) == sub_pat_scan(t, d, i + 2),
                    ensures
                        pat@ == sub_pat_scan(t, d, i + 2),
                    decreases n - j,
                {
                    if c[j] == '\\' && j + 1 < n {
                        pat.push(c[j]);
                        pat.push(c[j + 1]);
                        assert(pat@ + sub_pat_scan(t, d, j + 2) =~= (pat@.drop_last().drop_last()) + (seq![t[j as int], t[j + 1]] + sub_pat_scan(t, d, j + 2)));
                        j += 2;
                    } else if c[j] == d {
                        break;
                    } else {
                        pat.push(c[j]);
                        assert(pat@ + sub_pat_scan(t, d, j + 1) =~= (pat@.drop_last()) + (seq![t[j as int]] + sub_pat_scan(t, d, j + 1)));
                        j += 1;
                    }
                }
                assert(pat@ =~= sub_pat_scan(t, d, i + 2));
                if pat.len() == 0 {
                    return None;
                }
                return Some(string_from(&pat));
            }
        }
        prefix_ok = prefix_ok && (('0' <= ch && ch <= '9') || ch == '.' || ch == '$' || ch == '%' || ch == '+' || ch == '-' || ch == ',' || ch == ';' || ch == ' ');
        proof {
            assert(prefix_ok == (forall|k: int| 0 <= k < i + 1 ==> range_char(#[trigger] t[k])));
        }
        i += 1;
    }
    None
}


/// Where browsing the history goes from `browse` (the entry shown, `None`
/// for the line being typed) in a history of `len` entries: older steps
/// toward the first entry and stop there; newer steps toward the newest
/// and then back to the typed line; `None` when nothing changes.
pub open spec fn history_next(len: int, browse: Option<usize>, older: bool) -> Option<Option<int>> {
    if older {
        if len == 0 {
            None
        } else {
            match browse {
                None => Some(Some(len - 1)),
                Some(i) => Some(Some(if i == 0 { 0 } else { i - 1 })),
            }
        }
    } else {
        match browse {
            None => None,
            Some(i) => if i + 1 < len { Some(Some(i + 1)) } else { Some(None) },
        }
    }
}

/// Steps through the command-line history (Up/Down, Ctrl-P/Ctrl-N): shows
/// the entry browsed to in `cmdline`; the first step back saves the typed
/// line in `draft`, and stepping past the newest entry restores it.
pub fn history_step(hist: &[String], browse: &mut Option<usize>, draft: &mut String, cmdline: &mut String, older: bool)
    requires
        match *old(browse) {
            Some(i) => i < hist@.len(),
            None => true,
        },
    ensures
        match history_next(hist@.len() as int, *old(browse), older) {
            None => {
                &&& *final(browse) == *old(browse)
                &&& final(draft)@ == old(draft)@
                &&& final(cmdline)@ == old(cmdline)@
            },
            Some(next) => {
                &&& *final(browse) == match next { Some(i) => Some(i as usize), None => None::<usize> }
                &&& final(draft)@ == if next is None { Seq::<char>::empty() } else if *old(browse) is None { old(cmdline)@ } else { old(draft)@ }
                &&& final(cmdline)@ == match next { Some(i) => hist@[i]@, None => old(draft)@ }
            },
        },
{
    let len = hist.len();
    let next = if older {
        if len == 0 {
            return;
        }
        match *browse {
            None => {
                *draft = string_from(&chars_of(cmdline.as_str()));
                Some(len - 1)
            },
            Some(0) => Some(0),
            Some(i) => Some(i - 1),
        }
    } else {
        match *browse {
            None => {
                return;
            },
            Some(i) => if i + 1 < len { Some(i + 1) } else { None },
        }
    };
    *browse = next;
    match next {
        Some(i) => {
            *cmdline = string_from(&chars_of(hist[i].as_str()));
        },
        None => {
            *cmdline = string_from(&chars_of(draft.as_str()));
            *draft = String::new();
            proof {
                reveal_strlit("");
            }
        },
    }
}

/// What a key typed on the command line leaves for the editor.
pub enum CmdlineStep {
    /// Go on editing the line.
    Edit,
    /// Leave the command line without running anything.
    Cancel,
    /// Run this line (now in the history).
    Submit(String),
    /// Complete the line: to the next candidate, or (`false`) the one before.
    Complete(bool),
}

/// The model of a [`CmdlineStep`].
pub enum CmdlineStepV {
    Edit,
    Cancel,
    Submit(Seq<char>),
    Complete(bool),
}

/// A [`CmdlineStep`] by its plain values.
pub open spec fn cmdline_step_view(s: CmdlineStep) -> CmdlineStepV {
    match s {
        CmdlineStep::Edit => CmdlineStepV::Edit,
        CmdlineStep::Cancel => CmdlineStepV::Cancel,
        CmdlineStep::Submit(l) => CmdlineStepV::Submit(l@),
        CmdlineStep::Complete(f) => CmdlineStepV::Complete(f),
    }
}

/// Whether `key` steps back through the history (Up, Ctrl-P).
pub open spec fn older_key(key: Key) -> bool {
    key == Key::Up || key == Key::Ctrl('p')
}

/// Whether `key` steps forward through the history (Down, Ctrl-N).
pub open spec fn newer_key(key: Key) -> bool {
    key == Key::Down || key == Key::Ctrl('n')
}

/// A key typed on the command line whose text is `line`, with history
/// `hist` browsed at `browse` and the typed line kept in `draft`. Esc
/// clears the line and leaves; Enter clears it, records it in the history
/// and runs it; Backspace takes off the last char, and on an empty line
/// leaves; Up/Ctrl-P and Down/Ctrl-N step through the history as
/// `history_step`; Tab and Shift-Tab ask for completion; a typed char is
/// added; any other key does nothing.
pub fn cmdline_key(line: &mut String, hist: &mut Vec<String>, browse: &mut Option<usize>, draft: &mut String, key: Key) -> (r: CmdlineStep)
    requires
        match *old(browse) {
            Some(i) => i < old(hist)@.len(),
            None => true,
        },
    ensures
        key == Key::Enter ==> {
            &&& cmdline_step_view(r) == CmdlineStepV::Submit(old(line)@)
            &&& final(line)@.len() == 0
            &&& views(final(hist)@) == history_after(views(old(hist)@), old(line)@)
            &&& *final(browse) == *old(browse) && final(draft)@ == old(draft)@
        },
        older_key(key) || newer_key(key) ==> {
            let older = older_key(key);
            &&& cmdline_step_view(r) == CmdlineStepV::Edit
            &&& final(hist)@ == old(hist)@
            &&& match history_next(old(hist)@.len() as int, *old(browse), older) {
                None => *final(browse) == *old(browse) && final(draft)@ == old(draft)@ && final(line)@ == old(line)@,
                Some(next) => {
                    &&& *final(browse) == match next { Some(i) => Some(i as usize), None => None::<usize> }
                    &&& final(draft)@ == if next is None { Seq::<char>::empty() } else if *old(browse) is None { old(line)@ } else { old(draft)@ }
                    &&& final(line)@ == match next { Some(i) => old(hist)@[i]@, None => old(draft)@ }
                },
            }
        },
        key != Key::Enter && !older_key(key) && !newer_key(key) ==> {
            &&& final(hist)@ == old(hist)@
            &&& *final(browse) == *old(browse)
            &&& final(draft)@ == old(draft)@
            &&& match key {
                Key::Esc => cmdline_step_view(r) == CmdlineStepV::Cancel && final(line)@.len() == 0,
                Key::Backspace => if old(line)@.len() == 0 {
                    cmdline_step_view(r) == CmdlineStepV::Cancel && final(line)@ == old(line)@
                } else {
                    cmdline_step_view(r) == CmdlineStepV::Edit && final(line)@ == old(line)@.drop_last()
                },
                Key::Tab => cmdline_step_view(r) == CmdlineStepV::Complete(true) && final(line)@ == old(line)@,
                Key::BackTab => cmdline_step_view(r) == CmdlineStepV::Complete(false) && final(line)@ == old(line)@,
                Key::Char(c) => cmdline_step_view(r) == CmdlineStepV::Edit && final(line)@ == old(line)@.push(c),
                _ => cmdline_step_view(r) == CmdlineStepV::Edit && final(line)@ == old(line)@,
            }
        },
{
    match key {
        Key::Esc => {
            *line = String::new();
            CmdlineStep::Cancel
        },
        Key::Enter => {
            let entered = string_from(&chars_of(line.as_str()));
            *line = String::new();
            push_history(hist, entered.as_str());
            CmdlineStep::Submit(entered)
        },
        Key::Backspace => {
            let v = chars_of(line.as_str());
            if v.len() == 0 {
                CmdlineStep::Cancel
            } else {
                *line = string_from(&copy_range(&v, 0, v.len() - 1));
                CmdlineStep::Edit
            }
        },
        Key::Up | Key::Down => {
            history_step(hist, browse, draft, line, key == Key::Up);
            CmdlineStep::Edit
        },
        Key::Ctrl(c) => {
            if c == 'p' || c == 'n' {
                history_step(hist, browse, draft, line, c == 'p');
            }
            CmdlineStep::Edit
        },
        Key::Tab => CmdlineStep::Complete(true),
        Key::BackTab => CmdlineStep::Complete(false),
        Key::Char(c) => {
            crate::text::push_char(line, c);
            CmdlineStep::Edit
        },
        _ => CmdlineStep::Edit,
    }
}

// ---------------------------------------------------------------- ranges

/// The end of the run of ASCII digits starting at `i`.
pub open spec fn digit_end(s: Seq<char>, i: int) -> int
    decreases s.len() - i,
{
    if 0 <= i < s.len() && is_digit(s[i]) { digit_end(s, i + 1) } else { i }
}

/// The value of the digits `s[i..j]`.
pub open spec fn num_at(s: Seq<char>, i: int, j: int) -> int {
    crate::text::digits_value(s.subrange(i, j)) as int
}

/// The line of mark `m`: its first entry.
pub open spec fn mark_line(marks: Seq<(char, usize)>, m: char) -> Option<int>
    decreases marks.len(),
{
    if marks.len() == 0 {
        None
    } else if marks[0].0 == m {
        Some(marks[0].1 as int)
    } else {
        mark_line(marks.drop_first(), m)
    }
}

/// How an address starts at `i`.
pub enum AddrHead {
    /// No line given (an offset may still follow).
    Nothing,
    /// The line and where the address goes on.
    Line(int, int),
    /// A `'` at the end of the command.
    NoMark,
    /// A `'` naming a mark that is not set.
    UnsetMark(char),
}

pub open spec fn addr_head(s: Seq<char>, i: int, cur: int, last: int, marks: Seq<(char, usize)>) -> AddrHead {
    if 0 <= i < s.len() {
        if s[i] == '.' {
            AddrHead::Line(cur, i + 1)
        } else if s[i] == '$' {
            AddrHead::Line(last, i + 1)
        } else if s[i] == '\'' {
            if i + 1 < s.len() {
                match mark_line(marks, s[i + 1]) {
                    Some(l) => AddrHead::Line(l, i + 2),
                    None => AddrHead::UnsetMark(s[i + 1]),
                }
            } else {
                AddrHead::NoMark
            }
        } else if is_digit(s[i]) {
            AddrHead::Line(num_at(s, i, digit_end(s, i)) - 1, digit_end(s, i))
        } else {
            AddrHead::Nothing
        }
    } else {
        AddrHead::Nothing
    }
}

/// The `+`/`-` offsets from `i` on (a bare sign counts one), applied to
/// `line` (or to `cur` when no line was given): the line and where the
/// address ends.
pub open spec fn addr_offsets(s: Seq<char>, i: int, line: Option<int>, cur: int) -> (Option<int>, int)
    decreases s.len() - i,
{
    if 0 <= i < s.len() && (s[i] == '+' || s[i] == '-') {
        let e = digit_end(s, i + 1);
        let n = if e > i + 1 { num_at(s, i + 1, e) } else { 1 };
        let base = match line { Some(l) => l, None => cur };
        let l2 = if s[i] == '+' { base + n } else { base - n };
        if i < e <= s.len() { addr_offsets(s, e, Some(l2), cur) } else { (line, i) }
    } else {
        (line, i)
    }
}

/// Whether the offsets from `i` on stay within `i64`.
pub open spec fn offsets_fit(s: Seq<char>, i: int, line: Option<int>, cur: int) -> bool
    decreases s.len() - i,
{
    if 0 <= i < s.len() && (s[i] == '+' || s[i] == '-') {
        let e = digit_end(s, i + 1);
        let n = if e > i + 1 { num_at(s, i + 1, e) } else { 1 };
        let base = match line { Some(l) => l, None => cur };
        let l2 = if s[i] == '+' { base + n } else { base - n };
        &&& n <= i64::MAX
        &&& i64::MIN <= l2 <= i64::MAX
        &&& (i < e <= s.len() ==> offsets_fit(s, e, Some(l2), cur))
    } else {
        true
    }
}

/// Whether the address at `i` stays within `i64`.
pub open spec fn address_fits(s: Seq<char>, i: int, cur: int, last: int, marks: Seq<(char, usize)>) -> bool {
    match addr_head(s, i, cur, last, marks) {
        AddrHead::Line(l, j) => {
            &&& (0 <= i < s.len() && is_digit(s[i]) ==> num_at(s, i, digit_end(s, i)) <= i64::MAX)
            &&& offsets_fit(s, j, Some(l), cur)
        },
        AddrHead::Nothing => offsets_fit(s, i, None, cur),
        _ => true,
    }
}

pub open spec fn e20() -> Seq<char> {
    seq!['E', '2', '0', ':', ' ', 'm', 'a', 'r', 'k', ' ', 'n', 'o', 't', ' ', 's', 'e', 't']
}

/// The address at `i`: none when nothing there is an address, else the
/// line (clamped to `0..=last`) and where it ends; an error for a mark that
/// is not set.
pub open spec fn one_address(s: Seq<char>, i: int, cur: int, last: int, marks: Seq<(char, usize)>) -> Result<Option<(int, int)>, Seq<char>> {
    match addr_head(s, i, cur, last, marks) {
        AddrHead::NoMark => Err(e20()),
        AddrHead::UnsetMark(m) => Err(e20() + seq![':', ' ', m]),
        AddrHead::Line(l, j) => {
            let r = addr_offsets(s, j, Some(l), cur);
            let v = match r.0 { Some(x) => x, None => cur };
            Ok(Some((if v < 0 { 0 } else if v > last { last } else { v }, r.1)))
        },
        AddrHead::Nothing => {
            let r = addr_offsets(s, i, None, cur);
            let v = match r.0 { Some(x) => x, None => cur };
            if r.1 == i {
                Ok(None)
            } else {
                Ok(Some((if v < 0 { 0 } else if v > last { last } else { v }, r.1)))
            }
        },
    }
}

proof fn lemma_digit_end(s: Seq<char>, i: int)
    requires
        0 <= i,
    ensures
        i <= digit_end(s, i),
        digit_end(s, i) <= s.len() || digit_end(s, i) == i,
        forall|k: int| i <= k < digit_end(s, i) ==> is_digit(s[k]),
        digit_end(s, i) < s.len() ==> !is_digit(s[digit_end(s, i)]),
    decreases s.len() - i,
{
    if i < s.len() && is_digit(s[i]) {
        lemma_digit_end(s, i + 1);
    }
}

proof fn lemma_digits_mono(s: Seq<char>, i: int, j: int, k: int)
    requires
        0 <= i <= j <= k <= s.len(),
    ensures
        num_at(s, i, j) <= num_at(s, i, k),
    decreases k - j,
{
    if j < k {
        lemma_digits_mono(s, i, j, k - 1);
        assert(s.subrange(i, k).drop_last() =~= s.subrange(i, k - 1));
    }
}

/// Reads the digits from `i` on: their value (when it fits in `i64`) and
/// where they end.
fn read_digits(chars: &Vec<char>, i: usize) -> (r: (i64, usize))
    requires
        i <= chars@.len(),
        num_at(chars@, i as int, digit_end(chars@, i as int)) <= i64::MAX,
    ensures
        r.1 as int == digit_end(chars@, i as int),
        r.0 as int == num_at(chars@, i as int, r.1 as int),
{
    proof {
        lemma_digit_end(chars@, i as int);
    }
    let ghost e = digit_end(chars@, i as int);
    let mut n: i64 = 0;
    let mut j = i;
    proof {
        assert(chars@.subrange(i as int, i as int) =~= Seq::<char>::empty());
    }
    while j < chars.len() && chars[j] >= '0' && chars[j] <= '9'
        invariant
            i <= j <= e,
            e == digit_end(chars@, i as int),
            e <= chars@.len(),
            forall|k: int| i <= k < e ==> is_digit(chars@[k]),
            e < chars@.len() ==> !is_digit(chars@[e]),
            num_at(chars@, i as int, e) <= i64::MAX,
            n as int == num_at(chars@, i as int, j as int),
        decreases chars@.len() - j,
    {
        proof {
            lemma_digits_mono(chars@, i as int, j + 1, e);
            assert(chars@.subrange(i as int, j + 1).drop_last() =~= chars@.subrange(i as int, j as int));
            assert(chars@.subrange(i as int, j + 1).last() == chars@[j as int]);
        }
        let d = (chars[j] as u32 - '0' as u32) as i64;
        n = n * 10 + d;
        j = j + 1;
    }
    (n, j)
}

/// The line of mark `m`.
fn find_mark(marks: &[(char, usize)], m: char) -> (r: Option<usize>)
    ensures
        match r {
            Some(l) => mark_line(marks@, m) == Some(l as int) && exists|k: int| 0 <= k < marks@.len() && (#[trigger] marks@[k]).1 == l,
            None => mark_line(marks@, m) is None,
        },
{
    let mut k: usize = 0;
    proof {
        assert(marks@.subrange(0, marks@.len() as int) =~= marks@);
    }
    while k < marks.len()
        invariant
            k <= marks@.len(),
            mark_line(marks@.subrange(k as int, marks@.len() as int), m) == mark_line(marks@, m),
        decreases marks@.len() - k,
    {
        let ghost rest = marks@.subrange(k as int, marks@.len() as int);
        proof {
            assert(rest[0] == marks@[k as int]);
            assert(rest.drop_first() =~= marks@.subrange(k + 1, marks@.len() as int));
        }
        if marks[k].0 == m {
            return Some(marks[k].1);
        }
        k = k + 1;
    }
    proof {
        assert(marks@.subrange(k as int, marks@.len() as int) =~= Seq::<(char, usize)>::empty());
    }
    None
}

fn e20_chars() -> (r: Vec<char>)
    ensures
        r@ == e20(),
{
    let t = "E20: mark not set";
    proof {
        reveal_strlit("E20: mark not set");
    }
    let r = chars_of(t);
    proof {
        assert(r@ =~= e20());
    }
    r
}

/// Parses one Ex address at `chars[i]`: `.`, `$`, `'m`, a line number,
/// then any `+`/`-` offsets (a bare sign counts one) relative to it or to
/// `cur`. Gives the line, clamped to `0..=last`, and the index just past
/// the address; none when no address starts there; an error for a mark
/// that is not set.
pub fn parse_one_address(last: usize, marks: &[(char, usize)], chars: &Vec<char>, i: usize, cur: usize) -> (r: Result<Option<(usize, usize)>, String>)
    requires
        i <= chars@.len(),
        last <= i64::MAX,
        cur <= i64::MAX,
        forall|k: int| 0 <= k < marks@.len() ==> (#[trigger] marks@[k]).1 <= i64::MAX,
        address_fits(chars@, i as int, cur as int, last as int, marks@),
    ensures
        match (r, one_address(chars@, i as int, cur as int, last as int, marks@)) {
            (Ok(None), Ok(None)) => true,
            (Ok(Some(a)), Ok(Some(b))) => a.0 as int == b.0 && a.1 as int == b.1,
            (Err(e), Err(f)) => e@ == f,
            _ => false,
        },
        r matches Ok(Some(a)) ==> i <= a.1 <= chars@.len() && a.0 <= last,
{
    let ghost s = chars@;
    let n = chars.len();
    let mut j = i;
    let mut line: Option<i64> = None;
    let mut had_head = false;
    if i < n {
        let c = chars[i];
        if c == '.' {
            line = Some(cur as i64);
            j = i + 1;
            had_head = true;
        } else if c == '$' {
            line = Some(last as i64);
            j = i + 1;
            had_head = true;
        } else if c == '\'' {
            if i + 1 < n {
                let m = chars[i + 1];
                match find_mark(marks, m) {
                    Some(l) => {
                        proof {
                            let k = choose|k: int| 0 <= k < marks@.len() && (#[trigger] marks@[k]).1 == l;
                            assert(marks@[k].1 <= i64::MAX);
                        }
                        line = Some(l as i64);
                        j = i + 2;
                        had_head = true;
                    },
                    None => {
                        let mut e = e20_chars();
                        e.push(':');
                        e.push(' ');
                        e.push(m);
                        proof {
                            assert(e@ =~= e20() + seq![':', ' ', m]);
                        }
                        return Err(string_from(&e));
                    },
                }
            } else {
                return Err(string_from(&e20_chars()));
            }
        } else if c >= '0' && c <= '9' {
            let (v, e) = read_digits(chars, i);
            line = Some(v - 1);
            j = e;
            had_head = true;
        }
    }
    proof {
        lemma_digit_end(s, i as int);
    }
    let ghost head = addr_head(s, i as int, cur as int, last as int, marks@);
    let ghost start_line: Option<int> = match line { Some(x) => Some(x as int), None => None };
    proof {
        if had_head {
            assert(head == AddrHead::Line(start_line->0, j as int));
        } else {
            assert(head == AddrHead::Nothing);
            assert(j == i);
        }
    }
    let ghost total = addr_offsets(s, j as int, start_line, cur as int);
    while j < n && (chars[j] == '+' || chars[j] == '-')
        invariant
            i <= j <= n,
            n == s.len(),
            s == chars@,
            cur <= i64::MAX,
            offsets_fit(s, j as int, match line { Some(x) => Some(x as int), None => None }, cur as int),
            addr_offsets(s, j as int, match line { Some(x) => Some(x as int), None => None }, cur as int) == total,
            had_head ==> line is Some,
            !had_head ==> (line is Some || j == i),
        decreases n - j,
    {
        let plus = chars[j] == '+';
        proof {
            lemma_digit_end(s, j + 1);
        }
        let ghost e = digit_end(s, j + 1);
        proof {
            if e > j + 1 {
                assert(num_at(s, j + 1, e) <= i64::MAX);
            }
        }
        let (v, e2) = if j + 1 < n && chars[j + 1] >= '0' && chars[j + 1] <= '9' {
            read_digits(chars, j + 1)
        } else {
            (1i64, j + 1)
        };
        proof {
            assert(e2 == e);
        }
        let base: i64 = match line {
            Some(l) => l,
            None => cur as i64,
        };
        let l2: i64 = if plus { base + v } else { base - v };
        line = Some(l2);
        j = e2;
    }
    proof {
        assert(addr_offsets(s, j as int, match line { Some(x) => Some(x as int), None => None }, cur as int)
            == (match line { Some(x) => Some(x as int), None => None }, j as int));
    }
    if !had_head && j == i {
        return Ok(None);
    }
    let v: i64 = match line {
        Some(x) => x,
        None => cur as i64,
    };
    let resolved: usize = if v < 0 { 0 } else if v > last as i64 { last } else { v as usize };
    Ok(Some((resolved, j)))
}

/// The first position from `i` on that is not a space or tab.
pub open spec fn skip_blanks(s: Seq<char>, i: int) -> int
    decreases s.len() - i,
{
    if 0 <= i < s.len() && (s[i] == ' ' || s[i] == '\t') { skip_blanks(s, i + 1) } else { i }
}

/// The last line of a buffer of `lc` lines.
pub open spec fn last_of(lc: int) -> int {
    if lc > 0 { lc - 1 } else { 0 }
}

/// The range an Ex command starts with, and the rest of it: `%` for the
/// whole buffer, or one address, or two joined by `,` (the second relative
/// to the current line) or `;` (the second relative to the first), in
/// either order; no range (and the whole command) when none is given.
pub open spec fn range_spec(s: Seq<char>, lc: int, cur: int, marks: Seq<(char, usize)>) -> Result<(Option<(int, int)>, Seq<char>), Seq<char>> {
    let last = last_of(lc);
    let i = skip_blanks(s, 0);
    if i < s.len() && s[i] == '%' {
        Ok((Some((0, last)), s.subrange(i + 1, s.len() as int)))
    } else {
        match one_address(s, i, cur, last, marks) {
            Err(e) => Err(e),
            Ok(None) => Ok((None, s)),
            Ok(Some(p)) => {
                let a1 = p.0;
                let j = p.1;
                if 0 <= j < s.len() && (s[j] == ',' || s[j] == ';') {
                    let base = if s[j] == ';' { a1 } else { cur };
                    match one_address(s, j + 1, base, last, marks) {
                        Err(e) => Err(e),
                        Ok(Some(q)) => Ok((Some(if a1 <= q.0 { (a1, q.0) } else { (q.0, a1) }), s.subrange(q.1, s.len() as int))),
                        Ok(None) => Ok((Some((a1, a1)), s.subrange(j + 1, s.len() as int))),
                    }
                } else {
                    Ok((Some((a1, a1)), s.subrange(j, s.len() as int)))
                }
            },
        }
    }
}

/// Whether the addresses of a range stay within `i64`.
pub open spec fn range_fits(s: Seq<char>, lc: int, cur: int, marks: Seq<(char, usize)>) -> bool {
    let last = last_of(lc);
    let i = skip_blanks(s, 0);
    (i < s.len() && s[i] == '%') || (address_fits(s, i, cur, last, marks) && match one_address(s, i, cur, last, marks) {
        Ok(Some(p)) => (0 <= p.1 < s.len() && (s[p.1] == ',' || s[p.1] == ';')) ==> address_fits(
            s,
            p.1 + 1,
            if s[p.1] == ';' { p.0 } else { cur },
            last,
            marks,
        ),
        _ => true,
    })
}

proof fn lemma_skip_blanks(s: Seq<char>, i: int)
    requires
        0 <= i <= s.len(),
    ensures
        i <= skip_blanks(s, i) <= s.len(),
    decreases s.len() - i,
{
    if i < s.len() && (s[i] == ' ' || s[i] == '\t') {
        lemma_skip_blanks(s, i + 1);
    }
}

/// Splits an Ex command into its line range and the rest: `%` for the
/// whole buffer (of `line_count` lines), or one address, or two joined by
/// `,` (the second relative to `cursor_line`) or `;` (the second relative
/// to the first), given in either order. No range leaves the command as it
/// is; an unset mark is an error. `marks` holds each mark's line.
pub fn parse_range(line_count: usize, cursor_line: usize, marks: &[(char, usize)], cmd: &str) -> (r: Result<(Option<(usize, usize)>, String), String>)
    requires
        line_count <= i64::MAX,
        cursor_line <= i64::MAX,
        forall|k: int| 0 <= k < marks@.len() ==> (#[trigger] marks@[k]).1 <= i64::MAX,
        range_fits(cmd@, line_count as int, cursor_line as int, marks@),
    ensures
        match (r, range_spec(cmd@, line_count as int, cursor_line as int, marks@)) {
            (Ok((None, rest)), Ok((None, srest))) => rest@ == srest,
            (Ok((Some(a), rest)), Ok((Some(b), srest))) => a.0 as int == b.0 && a.1 as int == b.1 && rest@ == srest,
            (Err(e), Err(f)) => e@ == f,
            _ => false,
        },
{
    let chars = chars_of(cmd);
    let ghost s = chars@;
    let n = chars.len();
    let last: usize = if line_count > 0 { line_count - 1 } else { 0 };
    let mut i: usize = 0;
    while i < n && (chars[i] == ' ' || chars[i] == '\t')
        invariant
            i <= n,
            n == s.len(),
            s == chars@,
            skip_blanks(s, i as int) == skip_blanks(s, 0),
        decreases n - i,
    {
        i = i + 1;
    }
    if i < n && chars[i] == '%' {
        let rest = string_from(&copy_range(&chars, i + 1, n));
        return Ok((Some((0, last)), rest));
    }
    match parse_one_address(last, marks, &chars, i, cursor_line) {
        Err(e) => Err(e),
        Ok(None) => Ok((None, string_from(&chars))),
        Ok(Some((a1, j))) => {
            if j < n && (chars[j] == ',' || chars[j] == ';') {
                let base = if chars[j] == ';' { a1 } else { cursor_line };
                match parse_one_address(last, marks, &chars, j + 1, base) {
                    Err(e) => Err(e),
                    Ok(Some((a2, k))) => {
                        let rest = string_from(&copy_range(&chars, k, n));
                        if a1 <= a2 {
                            Ok((Some((a1, a2)), rest))
                        } else {
                            Ok((Some((a2, a1)), rest))
                        }
                    },
                    Ok(None) => Ok((Some((a1, a1)), string_from(&copy_range(&chars, j + 1, n)))),
                }
            } else {
                Ok((Some((a1, a1)), string_from(&copy_range(&chars, j, n))))
            }
        },
    }
}


// ---------------------------------------------------------------- range bounds

/// Reads the digits from `i` on: their value when it fits in `i64`, and
/// where they end.
fn read_digits_checked(chars: &Vec<char>, i: usize) -> (r: (Option<i64>, usize))
    requires
        i <= chars@.len(),
    ensures
        r.1 as int == digit_end(chars@, i as int),
        match r.0 {
            Some(v) => v as int == num_at(chars@, i as int, r.1 as int) && v as int <= i64::MAX,
            None => num_at(chars@, i as int, r.1 as int) > i64::MAX,
        },
{
    proof {
        lemma_digit_end(chars@, i as int);
    }
    let ghost e = digit_end(chars@, i as int);
    let mut n: i64 = 0;
    let mut over = false;
    let mut j = i;
    proof {
        assert(chars@.subrange(i as int, i as int) =~= Seq::<char>::empty());
    }
    while j < chars.len() && chars[j] >= '0' && chars[j] <= '9'
        invariant
            i <= j <= e,
            e == digit_end(chars@, i as int),
            e <= chars@.len(),
            forall|k: int| i <= k < e ==> is_digit(chars@[k]),
            e < chars@.len() ==> !is_digit(chars@[e]),
            !over ==> n as int == num_at(chars@, i as int, j as int),
            over ==> num_at(chars@, i as int, j as int) > i64::MAX,
            n >= 0,
        decreases chars@.len() - j,
    {
        proof {
            assert(chars@.subrange(i as int, j + 1).drop_last() =~= chars@.subrange(i as int, j as int));
            assert(chars@.subrange(i as int, j + 1).last() == chars@[j as int]);
            lemma_digits_mono(chars@, i as int, j as int, j + 1);
        }
        let d = (chars[j] as u32 - '0' as u32) as i64;
        if !over {
            if n > (i64::MAX - d) / 10 {
                proof {
                    let nn = n as int;
                    let dd = d as int;
                    assert(nn * 10 + dd > i64::MAX) by (nonlinear_arith)
                        requires
                            0 <= dd <= 9,
                            nn > (i64::MAX - dd) / 10,
                    ;
                }
                over = true;
            } else {
                proof {
                    let nn = n as int;
                    let dd = d as int;
                    assert(nn * 10 + dd <= i64::MAX) by (nonlinear_arith)
                        requires
                            0 <= dd <= 9,
                            0 <= nn <= (i64::MAX - dd) / 10,
                    ;
                }
                n = n * 10 + d;
            }
        }
        j = j + 1;
    }
    if over { (None, j) } else { (Some(n), j) }
}

/// Whether the offsets from `j` on, applied to `line` (or `cur`), stay
/// within `i64` (see [`offsets_fit`]).
fn offsets_fit_exec(chars: &Vec<char>, j0: usize, line0: Option<i64>, cur: usize) -> (r: bool)
    requires
        j0 <= chars@.len(),
        cur <= i64::MAX,
    ensures
        r == offsets_fit(chars@, j0 as int, match line0 { Some(x) => Some(x as int), None => None }, cur as int),
{
    let ghost s = chars@;
    let n = chars.len();
    let mut j = j0;
    let mut line = line0;
    while j < n && (chars[j] == '+' || chars[j] == '-')
        invariant
            j0 <= j <= n,
            n == s.len(),
            s == chars@,
            cur <= i64::MAX,
            offsets_fit(s, j0 as int, match line0 { Some(x) => Some(x as int), None => None }, cur as int)
                == offsets_fit(s, j as int, match line { Some(x) => Some(x as int), None => None }, cur as int),
        decreases n - j,
    {
        let plus = chars[j] == '+';
        proof {
            lemma_digit_end(s, j + 1);
        }
        let (v, e2) = if j + 1 < n && chars[j + 1] >= '0' && chars[j + 1] <= '9' {
            read_digits_checked(chars, j + 1)
        } else {
            (Some(1i64), j + 1)
        };
        let v = match v {
            Some(v) => v,
            None => {
                return false;
            },
        };
        let base: i64 = match line {
            Some(l) => l,
            None => cur as i64,
        };
        let l2: i128 = if plus { base as i128 + v as i128 } else { base as i128 - v as i128 };
        if l2 < i64::MIN as i128 || l2 > i64::MAX as i128 {
            return false;
        }
        line = Some(l2 as i64);
        j = e2;
    }
    true
}

/// Whether the address at `i` stays within `i64` (see [`address_fits`]).
fn address_fits_exec(last: usize, marks: &[(char, usize)], chars: &Vec<char>, i: usize, cur: usize) -> (r: bool)
    requires
        i <= chars@.len(),
        last <= i64::MAX,
        cur <= i64::MAX,
        forall|k: int| 0 <= k < marks@.len() ==> (#[trigger] marks@[k]).1 <= i64::MAX,
    ensures
        r == address_fits(chars@, i as int, cur as int, last as int, marks@),
{
    let n = chars.len();
    proof {
        lemma_digit_end(chars@, i as int);
    }
    if i < n {
        let c = chars[i];
        if c == '.' {
            return offsets_fit_exec(chars, i + 1, Some(cur as i64), cur);
        } else if c == '$' {
            return offsets_fit_exec(chars, i + 1, Some(last as i64), cur);
        } else if c == '\'' {
            if i + 1 < n {
                match find_mark(marks, chars[i + 1]) {
                    Some(l) => {
                        proof {
                            let k = choose|k: int| 0 <= k < marks@.len() && (#[trigger] marks@[k]).1 == l;
                            assert(marks@[k].1 <= i64::MAX);
                        }
                        return offsets_fit_exec(chars, i + 2, Some(l as i64), cur);
                    },
                    None => {
                        return true;
                    },
                }
            }
            return true;
        } else if c >= '0' && c <= '9' {
            let (v, e) = read_digits_checked(chars, i);
            return match v {
                Some(v) => offsets_fit_exec(chars, e, Some(v - 1), cur),
                None => false,
            };
        }
    }
    offsets_fit_exec(chars, i, None, cur)
}

/// Whether reading the range of `cmd` stays within `i64` (see
/// [`range_fits`]): what [`parse_range`] and [`plan_ex`] need.
pub fn range_in_bounds(line_count: usize, cursor_line: usize, marks: &[(char, usize)], cmd: &str) -> (r: bool)
    requires
        line_count <= i64::MAX,
        cursor_line <= i64::MAX,
        forall|k: int| 0 <= k < marks@.len() ==> (#[trigger] marks@[k]).1 <= i64::MAX,
    ensures
        r == range_fits(cmd@, line_count as int, cursor_line as int, marks@),
{
    let chars = chars_of(cmd);
    let ghost s = chars@;
    let n = chars.len();
    let last: usize = if line_count > 0 { line_count - 1 } else { 0 };
    let mut i: usize = 0;
    while i < n && (chars[i] == ' ' || chars[i] == '\t')
        invariant
            i <= n,
            n == s.len(),
            s == chars@,
            skip_blanks(s, i as int) == skip_blanks(s, 0),
        decreases n - i,
    {
        i = i + 1;
    }
    if i < n && chars[i] == '%' {
        return true;
    }
    if !address_fits_exec(last, marks, &chars, i, cursor_line) {
        return false;
    }
    match parse_one_address(last, marks, &chars, i, cursor_line) {
        Ok(Some((a1, j))) => {
            if j < n && (chars[j] == ',' || chars[j] == ';') {
                let base = if chars[j] == ';' { a1 } else { cursor_line };
                address_fits_exec(last, marks, &chars, j + 1, base)
            } else {
                true
            }
        },
        _ => true,
    }
}

// ---------------------------------------------------------------- ex commands

/// What an Ex command line asks for once its range has been read.
pub enum ExPlan {
    /// A blank command line: nothing happens.
    Nothing,
    /// The range could not be read; the message says why.
    Fail(String),
    /// A bare address: go to the first non-blank of this line.
    Goto(usize),
    /// `:s`: the command (range taken off) and the lines it covers, when
    /// a range or a Visual selection gave them.
    Substitute { body: String, range: Option<(usize, usize)> },
    /// `:cfar`: the part after the command name.
    Far(String),
    /// Any other command: its name, the rest of the line, and its range.
    Run { name: String, rest: String, range: Option<(usize, usize)> },
}

/// The model of an [`ExPlan`].
pub enum ExPlanV {
    Nothing,
    Fail(Seq<char>),
    Goto(int),
    Substitute(Seq<char>, Option<(int, int)>),
    Far(Seq<char>),
    Run(Seq<char>, Seq<char>, Option<(int, int)>),
}

pub open spec fn lines_view(r: Option<(usize, usize)>) -> Option<(int, int)> {
    match r {
        Some(p) => Some((p.0 as int, p.1 as int)),
        None => None,
    }
}

pub open spec fn ex_plan_view(p: ExPlan) -> ExPlanV {
    match p {
        ExPlan::Nothing => ExPlanV::Nothing,
        ExPlan::Fail(m) => ExPlanV::Fail(m@),
        ExPlan::Goto(l) => ExPlanV::Goto(l as int),
        ExPlan::Substitute { body, range } => ExPlanV::Substitute(body@, lines_view(range)),
        ExPlan::Far(b) => ExPlanV::Far(b@),
        ExPlan::Run { name, rest, range } => ExPlanV::Run(name@, rest@, lines_view(range)),
    }
}

/// The lines a Visual selection from line `anchor` to the cursor covers.
pub open spec fn visual_lines(anchor: Option<usize>, cur: int) -> Option<(int, int)> {
    match anchor {
        Some(a) => Some(if a <= cur { (a as int, cur) } else { (cur, a as int) }),
        None => None,
    }
}

/// What the command `name rest` (taken off a trimmed remainder `rem`)
/// runs, with the range it gets.
pub open spec fn ex_dispatch(rem: Seq<char>, range: Option<(int, int)>) -> ExPlanV {
    let k = first_ws(rem, 0);
    let name = rem.subrange(0, k);
    let rest = rem.subrange(k, rem.len() as int);
    if name == "cfar"@ || name == "far"@ {
        ExPlanV::Far(rest)
    } else if is_far_spec(name) {
        ExPlanV::Far(rem.subrange(4, rem.len() as int))
    } else if is_substitute_spec(name) {
        ExPlanV::Substitute(rem, range)
    } else {
        ExPlanV::Run(name, rest, range)
    }
}

/// What the Ex command line `raw` asks for, in a buffer of `lc` lines with
/// the cursor on line `cur`: blank does nothing; a range that cannot be
/// read fails; a range alone goes to its last line (clamped to the
/// buffer); otherwise the command runs with the range given, or else the
/// lines of the Visual selection anchored at `anchor`.
pub open spec fn ex_plan_spec(lc: int, cur: int, marks: Seq<(char, usize)>, anchor: Option<usize>, raw: Seq<char>) -> ExPlanV {
    let cmd = crate::text::trim(raw);
    if cmd.len() == 0 {
        ExPlanV::Nothing
    } else {
        match range_spec(cmd, lc, cur, marks) {
            Err(e) => ExPlanV::Fail(e),
            Ok((range, rem0)) => {
                let rem = crate::text::trim(rem0);
                if rem.len() == 0 {
                    match range {
                        Some(r) => ExPlanV::Goto(if r.1 < last_of(lc) { r.1 } else { last_of(lc) }),
                        None => ExPlanV::Nothing,
                    }
                } else {
                    ex_dispatch(rem, if range is Some { range } else { visual_lines(anchor, cur) })
                }
            },
        }
    }
}

/// Reads the Ex command line `raw` (see [`ex_plan_spec`]): `line_count`
/// and `cursor_line` describe the buffer, `marks` each mark's line, and
/// `visual_anchor` the line a Visual selection started on, if the command
/// line was opened from one.
pub fn plan_ex(line_count: usize, cursor_line: usize, marks: &[(char, usize)], visual_anchor: Option<usize>, raw: &str) -> (r: ExPlan)
    requires
        line_count <= i64::MAX,
        cursor_line <= i64::MAX,
        forall|k: int| 0 <= k < marks@.len() ==> (#[trigger] marks@[k]).1 <= i64::MAX,
        range_fits(crate::text::trim(raw@), line_count as int, cursor_line as int, marks@),
    ensures
        ex_plan_view(r) == ex_plan_spec(line_count as int, cursor_line as int, marks@, visual_anchor, raw@),
{
    let cmd = crate::text::trim_str(raw);
    if chars_of(cmd.as_str()).len() == 0 {
        return ExPlan::Nothing;
    }
    proof {
        assert(cmd@.len() != 0);
    }
    let (range, rem0) = match parse_range(line_count, cursor_line, marks, cmd.as_str()) {
        Err(e) => {
            return ExPlan::Fail(e);
        },
        Ok(v) => v,
    };
    let rem = crate::text::trim_str(rem0.as_str());
    if chars_of(rem.as_str()).len() == 0 {
        proof {
            assert(rem@.len() == 0);
        }
        return match range {
            Some((_, end)) => {
                let last: usize = if line_count > 0 { line_count - 1 } else { 0 };
                ExPlan::Goto(if end < last { end } else { last })
            },
            None => ExPlan::Nothing,
        };
    }
    proof {
        assert(rem@.len() != 0);
    }
    let eff: Option<(usize, usize)> = match range {
        Some(p) => Some(p),
        None => match visual_anchor {
            Some(a) => Some(if a <= cursor_line { (a, cursor_line) } else { (cursor_line, a) }),
            None => None,
        },
    };
    let (name, rest) = split_command(rem.as_str());
    let nc = chars_of(name.as_str());
    let cfar = chars_of("cfar");
    let far = chars_of("far");
    proof {
        reveal_strlit("cfar");
        reveal_strlit("far");
    }
    if crate::text::chars_eq(&nc, &cfar) || crate::text::chars_eq(&nc, &far) {
        return ExPlan::Far(rest);
    }
    if is_far(name.as_str()) {
        let rc = chars_of(rem.as_str());
        proof {
            lemma_first_ws(rem@, 0);
            assert(nc@.len() > 4);
            assert(rc@.len() >= nc@.len());
        }
        return ExPlan::Far(string_from(&copy_range(&rc, 4, rc.len())));
    }
    if is_substitute(name.as_str()) {
        return ExPlan::Substitute { body: rem, range: eff };
    }
    ExPlan::Run { name, rest, range: eff }
}

proof fn lemma_first_ws(s: Seq<char>, i: int)
    requires
        0 <= i <= s.len(),
    ensures
        i <= first_ws(s, i) <= s.len(),
    decreases s.len() - i,
{
    if i < s.len() && !is_ws(s[i]) {
        lemma_first_ws(s, i + 1);
    }
}

/// The count an Ex command takes from its argument: the number `rest`
/// holds (blanks around it ignored), else `default`; with `at_least_one`,
/// never below one (`:earlier`, `:later`).
pub open spec fn ex_count_spec(rest: Seq<char>, default: usize, at_least_one: bool) -> usize {
    let n = match crate::text::parse_usize_spec(crate::text::trim(rest)) {
        Some(v) => v,
        None => default,
    };
    if at_least_one && n == 0 { 1 } else { n }
}

/// The count an Ex command takes from its argument (see [`ex_count_spec`]).
pub fn ex_count(rest: &str, default: usize, at_least_one: bool) -> (r: usize)
    ensures
        r == ex_count_spec(rest@, default, at_least_one),
{
    let t = crate::text::trim_str(rest);
    let n = match crate::text::parse_usize(t.as_str()) {
        Some(v) => v,
        None => default,
    };
    if at_least_one && n == 0 { 1 } else { n }
}

/// Which buffer a buffer command moves to.
pub enum BufferStep {
    /// `:bn`: the next buffer, wrapping around.
    Next,
    /// `:bp`: the previous buffer, wrapping around.
    Prev,
    /// `:b N`, `:bN`: buffer number `N`, counted from one.
    Number(usize),
}

/// The buffer index a buffer command moves to from `cur` among `count`
/// buffers, or none when it stays: `:bn`/`:bp` only move with more than one
/// buffer; `:b N` only to an existing buffer other than the current one.
pub open spec fn buffer_target_spec(step: BufferStep, count: int, cur: int) -> Option<int> {
    match step {
        BufferStep::Next => if count > 1 { Some((cur + 1) % count) } else { None },
        BufferStep::Prev => if count > 1 { Some((cur + count - 1) % count) } else { None },
        BufferStep::Number(n) => if 1 <= n <= count && n - 1 != cur { Some(n - 1) } else { None },
    }
}

/// The buffer index a buffer command moves to (see [`buffer_target_spec`]).
pub fn buffer_target(step: BufferStep, count: usize, cur: usize) -> (r: Option<usize>)
    requires
        cur < count,
    ensures
        match (r, buffer_target_spec(step, count as int, cur as int)) {
            (Some(a), Some(b)) => a as int == b,
            (None, None) => true,
            _ => false,
        },
{
    match step {
        BufferStep::Next => if count > 1 { Some((cur + 1) % count) } else { None },
        BufferStep::Prev => if count > 1 {
            let t: usize = if cur == 0 { count - 1 } else { cur - 1 };
            proof {
                let c = count as int;
                let k = cur as int;
                assert((k + c - 1) % c == t) by (nonlinear_arith)
                    requires
                        c > 1,
                        0 <= k < c,
                        t == if k == 0 { c - 1 } else { k - 1 },
                {
                    if k == 0 {
                        assert(c - 1 < c);
                    } else {
                        assert(k + c - 1 == (k - 1) + c);
                    }
                }
            }
            Some(t)
        } else { None },
        BufferStep::Number(n) => if n >= 1 && n <= count && n - 1 != cur { Some(n - 1) } else { None },
    }
}


// ---------------------------------------------------------------- :set

/// A yes/no option of `:set`.
#[derive(Clone, Copy, PartialEq, Eq, Debug)]
pub enum SetFlag {
    Wrap,
    Number,
    CursorLine,
    List,
    Rainbow,
    Spell,
    Notifications,
    StickyScroll,
    Minimap,
    RefactorPreview,
    Winbar,
    GlobalStatusline,
    FoldColumn,
    FormatOnSave,
    TodoHighlight,
    GhostText,
    SemanticTokens,
    RelativeNumber,
    IgnoreCase,
    SmartCase,
    SmartIndent,
    AutoPairs,
    ExpandTab,
}

/// A numeric option of `:set key=N`.
#[derive(Clone, Copy, PartialEq, Eq, Debug)]
pub enum SetNumber {
    Tabstop,
    ShiftWidth,
    ScrollOff,
    TextWidth,
    UpdateTime,
    LargeFileKb,
}

/// What a `:set` argument does.
pub enum SetAction {
    /// Turns a yes/no option on or off.
    Flag(SetFlag, bool),
    /// Sets the color column (0 turns it off).
    ColorColumn(usize),
    /// Shows the buffer's line-ending format.
    ShowFileFormat,
    /// Sets the buffer's line-ending format.
    SetFileFormat(crate::buffer::FileFormat),
    /// Sets a numeric option.
    Number(SetNumber, usize),
    /// The argument is wrong; the message says how.
    Error(String),
    /// No argument the command knows: show what it supports.
    Usage,
}

/// The model of a [`SetAction`].
pub enum SetActionV {
    Flag(SetFlag, bool),
    ColorColumn(usize),
    ShowFileFormat,
    SetFileFormat(crate::buffer::FileFormat),
    Number(SetNumber, usize),
    Error(Seq<char>),
    Usage,
}

pub open spec fn set_action_view(a: SetAction) -> SetActionV {
    match a {
        SetAction::Flag(f, b) => SetActionV::Flag(f, b),
        SetAction::ColorColumn(n) => SetActionV::ColorColumn(n),
        SetAction::ShowFileFormat => SetActionV::ShowFileFormat,
        SetAction::SetFileFormat(f) => SetActionV::SetFileFormat(f),
        SetAction::Number(k, n) => SetActionV::Number(k, n),
        SetAction::Error(m) => SetActionV::Error(m@),
        SetAction::Usage => SetActionV::Usage,
    }
}

/// The yes/no option a `:set` argument names, and the value it gives:
/// the option's name or short name turns it on, with `no` before it off.
pub open spec fn set_flag_spec(o: Seq<char>) -> Option<(SetFlag, bool)> {
    if o == "wrap"@ {
        Some((SetFlag::Wrap, true))
    } else if o == "nowrap"@ {
        Some((SetFlag::Wrap, false))
    } else if o == "number"@ {
        Some((SetFlag::Number, true))
    } else if o == "nonumber"@ {
        Some((SetFlag::Number, false))
    } else if o == "cursorline"@ || o == "cul"@ {
        Some((SetFlag::CursorLine, true))
    } else if o == "nocursorline"@ || o == "nocul"@ {
        Some((SetFlag::CursorLine, false))
    } else if o == "list"@ {
        Some((SetFlag::List, true))
    } else if o == "nolist"@ {
        Some((SetFlag::List, false))
    } else if o == "rainbow"@ {
        Some((SetFlag::Rainbow, true))
    } else if o == "norainbow"@ {
        Some((SetFlag::Rainbow, false))
    } else if o == "spell"@ {
        Some((SetFlag::Spell, true))
    } else if o == "nospell"@ {
        Some((SetFlag::Spell, false))
    } else if o == "notifications"@ {
        Some((SetFlag::Notifications, true))
    } else if o == "nonotifications"@ {
        Some((SetFlag::Notifications, false))
    } else if o == "stickyscroll"@ || o == "sticky"@ {
        Some((SetFlag::StickyScroll, true))
    } else if o == "nostickyscroll"@ || o == "nosticky"@ {
        Some((SetFlag::StickyScroll, false))
    } else if o == "minimap"@ || o == "mmp"@ {
        Some((SetFlag::Minimap, true))
    } else if o == "nominimap"@ || o == "nommp"@ {
        Some((SetFlag::Minimap, false))
    } else if o == "refactorpreview"@ || o == "rfp"@ {
        Some((SetFlag::RefactorPreview, true))
    } else if o == "norefactorpreview"@ || o == "norfp"@ {
        Some((SetFlag::RefactorPreview, false))
    } else if o == "winbar"@ || o == "wbr"@ {
        Some((SetFlag::Winbar, true))
    } else if o == "nowinbar"@ || o == "nowbr"@ {
        Some((SetFlag::Winbar, false))
    } else if o == "globalstatusline"@ || o == "laststatus3"@ || o == "gstl"@ {
        Some((SetFlag::GlobalStatusline, true))
    } else if o == "noglobalstatusline"@ || o == "nogstl"@ {
        Some((SetFlag::GlobalStatusline, false))
    } else if o == "foldcolumn"@ || o == "fdc"@ {
        Some((SetFlag::FoldColumn, true))
    } else if o == "nofoldcolumn"@ || o == "nofdc"@ {
        Some((SetFlag::FoldColumn, false))
    } else if o == "formatonsave"@ || o == "fos"@ {
        Some((SetFlag::FormatOnSave, true))
    } else if o == "noformatonsave"@ || o == "nofos"@ {
        Some((SetFlag::FormatOnSave, false))
    } else if o == "todohighlight"@ || o == "todo"@ {
        Some((SetFlag::TodoHighlight, true))
    } else if o == "notodohighlight"@ || o == "notodo"@ {
        Some((SetFlag::TodoHighlight, false))
    } else if o == "ghosttext"@ || o == "ghost"@ {
        Some((SetFlag::GhostText, true))
    } else if o == "noghosttext"@ || o == "noghost"@ {
        Some((SetFlag::GhostText, false))
    } else if o == "semantictokens"@ || o == "semantic"@ {
        Some((SetFlag::SemanticTokens, true))
    } else if o == "nosemantictokens"@ || o == "nosemantic"@ {
        Some((SetFlag::SemanticTokens, false))
    } else if o == "relativenumber"@ || o == "rnu"@ {
        Some((SetFlag::RelativeNumber, true))
    } else if o == "norelativenumber"@ || o == "nornu"@ {
        Some((SetFlag::RelativeNumber, false))
    } else if o == "ignorecase"@ || o == "ic"@ {
        Some((SetFlag::IgnoreCase, true))
    } else if o == "noignorecase"@ || o == "noic"@ {
        Some((SetFlag::IgnoreCase, false))
    } else if o == "smartcase"@ || o == "scs"@ {
        Some((SetFlag::SmartCase, true))
    } else if o == "nosmartcase"@ || o == "noscs"@ {
        Some((SetFlag::SmartCase, false))
    } else if o == "smartindent"@ || o == "si"@ {
        Some((SetFlag::SmartIndent, true))
    } else if o == "nosmartindent"@ || o == "nosi"@ {
        Some((SetFlag::SmartIndent, false))
    } else if o == "autopairs"@ {
        Some((SetFlag::AutoPairs, true))
    } else if o == "noautopairs"@ {
        Some((SetFlag::AutoPairs, false))
    } else if o == "expandtab"@ || o == "et"@ {
        Some((SetFlag::ExpandTab, true))
    } else if o == "noexpandtab"@ || o == "noet"@ {
        Some((SetFlag::ExpandTab, false))
    } else {
        None
    }
}

pub(crate) fn is_lit(o: &Vec<char>, lit: &str) -> (r: bool)
    ensures
        r == (o@ == lit@),
{
    let l = chars_of(lit);
    crate::text::chars_eq(o, &l)
}

fn set_flag(o: &Vec<char>) -> (r: Option<(SetFlag, bool)>)
    ensures
        r == set_flag_spec(o@),
{
    if is_lit(&o, "wrap") {
        Some((SetFlag::Wrap, true))
    } else if is_lit(&o, "nowrap") {
        Some((SetFlag::Wrap, false))
    } else if is_lit(&o, "number") {
        Some((SetFlag::Number, true))
    } else if is_lit(&o, "nonumber") {
        Some((SetFlag::Number, false))
    } else if is_lit(&o, "cursorline") || is_lit(&o, "cul") {
        Some((SetFlag::CursorLine, true))
    } else if is_lit(&o, "nocursorline") || is_lit(&o, "nocul") {
        Some((SetFlag::CursorLine, false))
    } else if is_lit(&o, "list") {
        Some((SetFlag::List, true))
    } else if is_lit(&o, "nolist") {
        Some((SetFlag::List, false))
    } else if is_lit(&o, "rainbow") {
        Some((SetFlag::Rainbow, true))
    } else if is_lit(&o, "norainbow") {
        Some((SetFlag::Rainbow, false))
    } else if is_lit(&o, "spell") {
        Some((SetFlag::Spell, true))
    } else if is_lit(&o, "nospell") {
        Some((SetFlag::Spell, false))
    } else if is_lit(&o, "notifications") {
        Some((SetFlag::Notifications, true))
    } else if is_lit(&o, "nonotifications") {
        Some((SetFlag::Notifications, false))
    } else if is_lit(&o, "stickyscroll") || is_lit(&o, "sticky") {
        Some((SetFlag::StickyScroll, true))
    } else if is_lit(&o, "nostickyscroll") || is_lit(&o, "nosticky") {
        Some((SetFlag::StickyScroll, false))
    } else if is_lit(&o, "minimap") || is_lit(&o, "mmp") {
        Some((SetFlag::Minimap, true))
    } else if is_lit(&o, "nominimap") || is_lit(&o, "nommp") {
        Some((SetFlag::Minimap, false))
    } else if is_lit(&o, "refactorpreview") || is_lit(&o, "rfp") {
        Some((SetFlag::RefactorPreview, true))
    } else if is_lit(&o, "norefactorpreview") || is_lit(&o, "norfp") {
        Some((SetFlag::RefactorPreview, false))
    } else if is_lit(&o, "winbar") || is_lit(&o, "wbr") {
        Some((SetFlag::Winbar, true))
    } else if is_lit(&o, "nowinbar") || is_lit(&o, "nowbr") {
        Some((SetFlag::Winbar, false))
    } else if is_lit(&o, "globalstatusline") || is_lit(&o, "laststatus3") || is_lit(&o, "gstl") {
        Some((SetFlag::GlobalStatusline, true))
    } else if is_lit(&o, "noglobalstatusline") || is_lit(&o, "nogstl") {
        Some((SetFlag::GlobalStatusline, false))
    } else if is_lit(&o, "foldcolumn") || is_lit(&o, "fdc") {
        Some((SetFlag::FoldColumn, true))
    } else if is_lit(&o, "nofoldcolumn") || is_lit(&o, "nofdc") {
        Some((SetFlag::FoldColumn, false))
    } else if is_lit(&o, "formatonsave") || is_lit(&o, "fos") {
        Some((SetFlag::FormatOnSave, true))
    } else if is_lit(&o, "noformatonsave") || is_lit(&o, "nofos") {
        Some((SetFlag::FormatOnSave, false))
    } else if is_lit(&o, "todohighlight") || is_lit(&o, "todo") {
        Some((SetFlag::TodoHighlight, true))
    } else if is_lit(&o, "notodohighlight") || is_lit(&o, "notodo") {
        Some((SetFlag::TodoHighlight, false))
    } else if is_lit(&o, "ghosttext") || is_lit(&o, "ghost") {
        Some((SetFlag::GhostText, true))
    } else if is_lit(&o, "noghosttext") || is_lit(&o, "noghost") {
        Some((SetFlag::GhostText, false))
    } else if is_lit(&o, "semantictokens") || is_lit(&o, "semantic") {
        Some((SetFlag::SemanticTokens, true))
    } else if is_lit(&o, "nosemantictokens") || is_lit(&o, "nosemantic") {
        Some((SetFlag::SemanticTokens, false))
    } else if is_lit(&o, "relativenumber") || is_lit(&o, "rnu") {
        Some((SetFlag::RelativeNumber, true))
    } else if is_lit(&o, "norelativenumber") || is_lit(&o, "nornu") {
        Some((SetFlag::RelativeNumber, false))
    } else if is_lit(&o, "ignorecase") || is_lit(&o, "ic") {
        Some((SetFlag::IgnoreCase, true))
    } else if is_lit(&o, "noignorecase") || is_lit(&o, "noic") {
        Some((SetFlag::IgnoreCase, false))
    } else if is_lit(&o, "smartcase") || is_lit(&o, "scs") {
        Some((SetFlag::SmartCase, true))
    } else if is_lit(&o, "nosmartcase") || is_lit(&o, "noscs") {
        Some((SetFlag::SmartCase, false))
    } else if is_lit(&o, "smartindent") || is_lit(&o, "si") {
        Some((SetFlag::SmartIndent, true))
    } else if is_lit(&o, "nosmartindent") || is_lit(&o, "nosi") {
        Some((SetFlag::SmartIndent, false))
    } else if is_lit(&o, "autopairs") {
        Some((SetFlag::AutoPairs, true))
    } else if is_lit(&o, "noautopairs") {
        Some((SetFlag::AutoPairs, false))
    } else if is_lit(&o, "expandtab") || is_lit(&o, "et") {
        Some((SetFlag::ExpandTab, true))
    } else if is_lit(&o, "noexpandtab") || is_lit(&o, "noet") {
        Some((SetFlag::ExpandTab, false))
    } else {
        None
    }
}

/// Whether `s` begins with `p`.
pub open spec fn has_prefix(s: Seq<char>, p: Seq<char>) -> bool {
    crate::text::matches_at(s, 0, p)
}

/// The number of a numeric `:set` option, when `k` names one and `n` is
/// a value it takes (tab stop and shift width are at least one).
pub open spec fn set_number_spec(k: Seq<char>, n: usize) -> Option<SetNumber> {
    if (k == "tabstop"@ || k == "ts"@) && n >= 1 {
        Some(SetNumber::Tabstop)
    } else if (k == "shiftwidth"@ || k == "sw"@) && n >= 1 {
        Some(SetNumber::ShiftWidth)
    } else if k == "scrolloff"@ || k == "so"@ {
        Some(SetNumber::ScrollOff)
    } else if k == "textwidth"@ || k == "tw"@ {
        Some(SetNumber::TextWidth)
    } else if k == "updatetime"@ || k == "ut"@ {
        Some(SetNumber::UpdateTime)
    } else if k == "largefilekb"@ || k == "largefile"@ {
        Some(SetNumber::LargeFileKb)
    } else {
        None
    }
}

fn set_number(k: &Vec<char>, n: usize) -> (r: Option<SetNumber>)
    ensures
        r == set_number_spec(k@, n),
{
    if (is_lit(k, "tabstop") || is_lit(k, "ts")) && n >= 1 {
        Some(SetNumber::Tabstop)
    } else if (is_lit(k, "shiftwidth") || is_lit(k, "sw")) && n >= 1 {
        Some(SetNumber::ShiftWidth)
    } else if is_lit(k, "scrolloff") || is_lit(k, "so") {
        Some(SetNumber::ScrollOff)
    } else if is_lit(k, "textwidth") || is_lit(k, "tw") {
        Some(SetNumber::TextWidth)
    } else if is_lit(k, "updatetime") || is_lit(k, "ut") {
        Some(SetNumber::UpdateTime)
    } else if is_lit(k, "largefilekb") || is_lit(k, "largefile") {
        Some(SetNumber::LargeFileKb)
    } else {
        None
    }
}

pub open spec fn cc_error() -> Seq<char> {
    "colorcolumn must be a number (0 disables)"@
}

pub open spec fn ff_error() -> Seq<char> {
    "fileformat must be unix, dos, or mac"@
}

pub open spec fn unknown_option(o: Seq<char>) -> Seq<char> {
    "Unknown or invalid :set option: "@ + o
}

/// What the `:set` argument `arg` does, blanks around it ignored: a
/// yes/no option; `colorcolumn=N` (`cc=`; empty turns it off);
/// `fileformat?` (`ff?`) to show and `fileformat=F` (`ff=`) to set the line
/// endings; `key=N` for a numeric option; an error for any other `=`; the
/// usage for anything else.
pub open spec fn set_action_spec(arg: Seq<char>) -> SetActionV {
    let o = crate::text::trim(arg);
    let eq = crate::text::next_char(o, '=', 0, o.len() as int);
    let key = o.subrange(0, eq);
    let val = if eq < o.len() { o.subrange(eq + 1, o.len() as int) } else { seq![] };
    match set_flag_spec(o) {
        Some((f, b)) => SetActionV::Flag(f, b),
        None => if has_prefix(o, "colorcolumn="@) || has_prefix(o, "cc="@) {
            match crate::text::parse_usize_spec(val) {
                Some(n) => SetActionV::ColorColumn(n),
                None => if val.len() == 0 { SetActionV::ColorColumn(0) } else { SetActionV::Error(cc_error()) },
            }
        } else if o == "ff?"@ || o == "fileformat?"@ {
            SetActionV::ShowFileFormat
        } else if has_prefix(o, "ff="@) || has_prefix(o, "fileformat="@) {
            match crate::buffer::parse_format(val) {
                Some(f) => SetActionV::SetFileFormat(f),
                None => SetActionV::Error(ff_error()),
            }
        } else if eq < o.len() {
            match crate::text::parse_usize_spec(val) {
                Some(n) => match set_number_spec(key, n) {
                    Some(k) => SetActionV::Number(k, n),
                    None => SetActionV::Error(unknown_option(o)),
                },
                None => SetActionV::Error(unknown_option(o)),
            }
        } else {
            SetActionV::Usage
        }
    }
}

fn lit_string(s: &str) -> (r: String)
    ensures
        r@ == s@,
{
    string_from(&chars_of(s))
}

/// What the `:set` argument `arg` does (see [`set_action_spec`]).
pub fn set_action(arg: &str) -> (r: SetAction)
    ensures
        set_action_view(r) == set_action_spec(arg@),
{
    let t = crate::text::trim_str(arg);
    let o = chars_of(t.as_str());
    let n = o.len();
    let eq = crate::text::find_char(&o, '=', 0, n);
    let key = copy_range(&o, 0, eq);
    let val: Vec<char> = if eq < n { copy_range(&o, eq + 1, n) } else { Vec::new() };
    proof {
        assert(val@ == (if eq < o@.len() { o@.subrange(eq + 1, o@.len() as int) } else { seq![] }));
    }
    if let Some((f, b)) = set_flag(&o) {
        return SetAction::Flag(f, b);
    }
    let valstr = string_from(&val);
    if crate::text::starts_at(&o, 0, &chars_of("colorcolumn=")) || crate::text::starts_at(&o, 0, &chars_of("cc=")) {
        return match crate::text::parse_usize(valstr.as_str()) {
            Some(v) => SetAction::ColorColumn(v),
            None => if val.len() == 0 { SetAction::ColorColumn(0) } else {
                SetAction::Error(lit_string("colorcolumn must be a number (0 disables)"))
            },
        };
    }
    if is_lit(&o, "ff?") || is_lit(&o, "fileformat?") {
        return SetAction::ShowFileFormat;
    }
    if crate::text::starts_at(&o, 0, &chars_of("ff=")) || crate::text::starts_at(&o, 0, &chars_of("fileformat=")) {
        return match crate::buffer::FileFormat::parse(valstr.as_str()) {
            Some(f) => SetAction::SetFileFormat(f),
            None => SetAction::Error(lit_string("fileformat must be unix, dos, or mac")),
        };
    }
    if eq < n {
        if let Some(v) = crate::text::parse_usize(valstr.as_str()) {
            if let Some(k) = set_number(&key, v) {
                return SetAction::Number(k, v);
            }
        }
        let mut m = chars_of("Unknown or invalid :set option: ");
        let mut i: usize = 0;
        let ghost m0 = m@;
        while i < n
            invariant
                i <= n,
                n == o@.len(),
                m@ == m0 + o@.subrange(0, i as int),
            decreases n - i,
        {
            m.push(o[i]);
            proof {
                assert(o@.subrange(0, i + 1) =~= o@.subrange(0, i as int).push(o@[i as int]));
            }
            i += 1;
        }
        proof {
            assert(o@.subrange(0, n as int) =~= o@);
        }
        return SetAction::Error(string_from(&m));
    }
    SetAction::Usage
}


// ---------------------------------------------------------------- :cfar

/// The substitute command `:cfar` runs in each file: its argument
/// (blanks around it ignored) when that already starts with `s` and a
/// delimiter, else the argument after an `s`.
pub open spec fn far_sub_body_spec(body: Seq<char>) -> Seq<char> {
    let b = crate::text::trim(body);
    if b.len() >= 2 && b[0] == 's' && !alphanumeric(b[1]) { b } else { seq!['s'] + b }
}

pub open spec fn e486_pattern() -> Seq<char> {
    "E486: pattern required"@
}

pub open spec fn e486_far() -> Seq<char> {
    "E486: incomplete substitute (need cfar/pat/repl/)"@
}

/// What `:cfar` runs in each file, and its pattern: the substitute needs a
/// delimiter, a non-empty pattern closed by the delimiter, and a pattern
/// fancy-regex compiles.
pub open spec fn far_plan_spec(body: Seq<char>) -> Result<(Seq<char>, Seq<char>), Seq<char>> {
    let sb = far_sub_body_spec(body);
    if sb.len() < 2 {
        Err(e486_pattern())
    } else {
        let d = sb[1];
        let rest = sb.subrange(2, sb.len() as int);
        let k = crate::text::next_char(rest, d, 0, rest.len() as int);
        if k >= rest.len() || k == 0 {
            Err(e486_far())
        } else {
            let pat = rest.subrange(0, k);
            if crate::substitute::fancy_compiles(pat, false) {
                Ok((sb, pat))
            } else {
                Err("bad pattern: "@ + pat)
            }
        }
    }
}

/// Checks the argument of `:cfar` (see [`far_plan_spec`]): the substitute
/// to run in each file and its pattern, or the message to show.
pub fn far_plan(body: &str) -> (r: Result<(String, String), String>)
    ensures
        match far_plan_spec(body@) {
            Ok((sb, pat)) => r matches Ok((x, y)) && x@ == sb && y@ == pat,
            Err(m) => r matches Err(e) && e@ == m,
        },
{
    let t = crate::text::trim_str(body);
    let b = chars_of(t.as_str());
    let sb: Vec<char> = if b.len() >= 2 && b[0] == 's' && !is_alphanumeric(b[1]) {
        b
    } else {
        let mut v: Vec<char> = Vec::new();
        v.push('s');
        let mut i: usize = 0;
        while i < b.len()
            invariant
                i <= b@.len(),
                v@ == seq!['s'] + b@.subrange(0, i as int),
            decreases b@.len() - i,
        {
            v.push(b[i]);
            proof {
                assert(b@.subrange(0, i + 1) =~= b@.subrange(0, i as int).push(b@[i as int]));
                assert(seq!['s'] + b@.subrange(0, i + 1) =~= (seq!['s'] + b@.subrange(0, i as int)).push(b@[i as int]));
            }
            i += 1;
        }
        proof {
            assert(b@.subrange(0, b@.len() as int) =~= b@);
        }
        v
    };
    proof {
        assert(sb@ == far_sub_body_spec(body@));
    }
    if sb.len() < 2 {
        return Err(string_from(&chars_of("E486: pattern required")));
    }
    let d = sb[1];
    let rest = copy_range(&sb, 2, sb.len());
    let k = crate::text::find_char(&rest, d, 0, rest.len());
    if k >= rest.len() || k == 0 {
        return Err(string_from(&chars_of("E486: incomplete substitute (need cfar/pat/repl/)")));
    }
    let pat = string_from(&copy_range(&rest, 0, k));
    match crate::substitute::fancy_build(pat.as_str(), false, 1_000_000) {
        Ok(_) => Ok((string_from(&sb), pat)),
        Err(_) => {
            let mut m = chars_of("bad pattern: ");
            let ghost m0 = m@;
            let pc = chars_of(pat.as_str());
            let mut i: usize = 0;
            while i < pc.len()
                invariant
                    i <= pc@.len(),
                    m@ == m0 + pc@.subrange(0, i as int),
                decreases pc@.len() - i,
            {
                m.push(pc[i]);
                proof {
                    assert(pc@.subrange(0, i + 1) =~= pc@.subrange(0, i as int).push(pc@[i as int]));
                }
                i += 1;
            }
            proof {
                assert(pc@.subrange(0, pc@.len() as int) =~= pc@);
            }
            Err(string_from(&m))
        },
    }
}

/// The files of a results list, each once, in the order they first come;
/// entries without a file are skipped.
pub open spec fn far_files_spec(paths: Seq<Option<Seq<char>>>) -> Seq<Seq<char>>
    decreases paths.len(),
{
    if paths.len() == 0 {
        seq![]
    } else {
        let r = far_files_spec(paths.drop_last());
        match paths.last() {
            Some(p) => if r.contains(p) { r } else { r.push(p) },
            None => r,
        }
    }
}

pub open spec fn opt_paths(v: Seq<Option<String>>) -> Seq<Option<Seq<char>>> {
    v.map_values(|o: Option<String>| match o { Some(x) => Some(x@), None => None })
}

/// The files `:cfar` replaces in (see [`far_files_spec`]).
pub fn far_files(paths: &Vec<Option<String>>) -> (r: Vec<String>)
    ensures
        views(r@) == far_files_spec(opt_paths(paths@)),
{
    let ghost ps = opt_paths(paths@);
    let mut out: Vec<String> = Vec::new();
    let mut i: usize = 0;
    while i < paths.len()
        invariant
            i <= paths@.len(),
            ps == opt_paths(paths@),
            views(out@) == far_files_spec(ps.take(i as int)),
        decreases paths@.len() - i,
    {
        proof {
            assert(ps.take(i + 1).drop_last() =~= ps.take(i as int));
            assert(ps.take(i + 1).last() == ps[i as int]);
        }
        match &paths[i] {
            Some(p) => {
                let pc = chars_of(p.as_str());
                if !crate::filetree::member(&out, &pc) {
                    let ghost before = out@;
                    out.push(string_from(&pc));
                    proof {
                        assert(views(out@) =~= views(before).push(p@));
                    }
                }
            },
            None => {},
        }
        i += 1;
    }
    proof {
        assert(ps.take(ps.len() as int) =~= ps);
    }
    out
}

} // verus!
