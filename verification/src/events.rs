//! Autocommand events: the editor lifecycle events that `[[autocmd]]`
//! entries hook, their names, and the shell-style glob that picks the
//! buffers an entry applies to.
use vstd::prelude::*;
use crate::config::Autocmd;
use crate::text::{ascii_lower, ascii_lower_seq, chars_of, chars_eq, push_char, string_from, eq_ignore_ascii_case_str};

verus! {

/// An editor lifecycle event.
#[derive(Clone, Copy, PartialEq, Eq, Debug, Structural)]
pub enum Event {
    BufWritePre,
    BufWritePost,
    BufEnter,
    InsertLeave,
    FocusGained,
    CursorHold,
    FileType,
}

/// The config name of an event.
pub open spec fn name_spec(e: Event) -> Seq<char> {
    match e {
        Event::BufWritePre => "BufWritePre"@,
        Event::BufWritePost => "BufWritePost"@,
        Event::BufEnter => "BufEnter"@,
        Event::InsertLeave => "InsertLeave"@,
        Event::FocusGained => "FocusGained"@,
        Event::CursorHold => "CursorHold"@,
        Event::FileType => "FileType"@,
    }
}

/// The event whose name equals `s` ignoring ASCII case, trying the events
/// in declaration order.
pub open spec fn from_name_spec(s: Seq<char>) -> Option<Event> {
    let l = ascii_lower_seq(s);
    if ascii_lower_seq(name_spec(Event::BufWritePre)) == l {
        Some(Event::BufWritePre)
    } else if ascii_lower_seq(name_spec(Event::BufWritePost)) == l {
        Some(Event::BufWritePost)
    } else if ascii_lower_seq(name_spec(Event::BufEnter)) == l {
        Some(Event::BufEnter)
    } else if ascii_lower_seq(name_spec(Event::InsertLeave)) == l {
        Some(Event::InsertLeave)
    } else if ascii_lower_seq(name_spec(Event::FocusGained)) == l {
        Some(Event::FocusGained)
    } else if ascii_lower_seq(name_spec(Event::CursorHold)) == l {
        Some(Event::CursorHold)
    } else if ascii_lower_seq(name_spec(Event::FileType)) == l {
        Some(Event::FileType)
    } else {
        None
    }
}

/// Event names differ even ignoring ASCII case.
proof fn lemma_names_distinct(a: Event, b: Event)
    requires
        a != b,
    ensures
        ascii_lower_seq(name_spec(a)) != ascii_lower_seq(name_spec(b)),
{
    reveal_strlit("BufWritePre");
    reveal_strlit("BufWritePost");
    reveal_strlit("BufEnter");
    reveal_strlit("InsertLeave");
    reveal_strlit("FocusGained");
    reveal_strlit("CursorHold");
    reveal_strlit("FileType");
    let la = ascii_lower_seq(name_spec(a));
    let lb = ascii_lower_seq(name_spec(b));
    if la == lb {
        assert(la.len() == name_spec(a).len());
        assert(lb.len() == name_spec(b).len());
        assert(la[0] == ascii_lower(name_spec(a)[0]));
        assert(lb[0] == ascii_lower(name_spec(b)[0]));
        assert(false);
    }
}

/// `Event::from_name` gives exactly the event whose name equals the given
/// text ignoring ASCII case, and none when no name does.
pub proof fn law_from_name_matches_ignoring_case(s: Seq<char>, e: Event)
    ensures
        (from_name_spec(s) == Some(e)) <==> ascii_lower_seq(s) == ascii_lower_seq(name_spec(e)),
{
    if ascii_lower_seq(s) == ascii_lower_seq(name_spec(e)) {
        if e != Event::BufWritePre { lemma_names_distinct(Event::BufWritePre, e); }
        if e != Event::BufWritePost { lemma_names_distinct(Event::BufWritePost, e); }
        if e != Event::BufEnter { lemma_names_distinct(Event::BufEnter, e); }
        if e != Event::InsertLeave { lemma_names_distinct(Event::InsertLeave, e); }
        if e != Event::FocusGained { lemma_names_distinct(Event::FocusGained, e); }
        if e != Event::CursorHold { lemma_names_distinct(Event::CursorHold, e); }
        if e != Event::FileType { lemma_names_distinct(Event::FileType, e); }
    }
}

impl Event {
    /// The config name of this event.
    pub fn name(self) -> (r: &'static str)
        ensures
            r@ == name_spec(self),
    {
        match self {
            Event::BufWritePre => "BufWritePre",
            Event::BufWritePost => "BufWritePost",
            Event::BufEnter => "BufEnter",
            Event::InsertLeave => "InsertLeave",
            Event::FocusGained => "FocusGained",
            Event::CursorHold => "CursorHold",
            Event::FileType => "FileType",
        }
    }

    /// Parses an event name from config (ASCII case-insensitive).
    pub fn from_name(s: &str) -> (r: Option<Event>)
        ensures
            r == from_name_spec(s@),
    {
        let all = [
            Event::BufWritePre,
            Event::BufWritePost,
            Event::BufEnter,
            Event::InsertLeave,
            Event::FocusGained,
            Event::CursorHold,
            Event::FileType,
        ];
        if eq_ignore_ascii_case_str(all[0].name(), s) {
            Some(all[0])
        } else if eq_ignore_ascii_case_str(all[1].name(), s) {
            Some(all[1])
        } else if eq_ignore_ascii_case_str(all[2].name(), s) {
            Some(all[2])
        } else if eq_ignore_ascii_case_str(all[3].name(), s) {
            Some(all[3])
        } else if eq_ignore_ascii_case_str(all[4].name(), s) {
            Some(all[4])
        } else if eq_ignore_ascii_case_str(all[5].name(), s) {
            Some(all[5])
        } else if eq_ignore_ascii_case_str(all[6].name(), s) {
            Some(all[6])
        } else {
            None
        }
    }
}

// ---------------------------------------------------------------- globs

#[verifier::external_type_specification]
#[verifier::external_body]
pub struct ExRegex(regex::Regex);

/// Whether `c` has a meaning in a regular expression (regex-syntax's
/// `is_meta_character`).
pub open spec fn regex_meta(c: char) -> bool {
    c == '\\' || c == '.' || c == '+' || c == '*' || c == '?' || c == '(' || c == ')' || c == '|'
        || c == '[' || c == ']' || c == '{' || c == '}' || c == '^' || c == '$' || c == '#' || c
        == '&' || c == '-' || c == '~'
}

/// `s` with a `\` before every regex meta character.
pub open spec fn escaped(s: Seq<char>) -> Seq<char>
    decreases s.len(),
{
    if s.len() == 0 {
        seq![]
    } else {
        escaped(s.drop_last()) + if regex_meta(s.last()) {
            seq!['\\', s.last()]
        } else {
            seq![s.last()]
        }
    }
}

/// Whether `p` is a regular expression that `regex::Regex::new` accepts.
pub uninterp spec fn regex_compiles(p: Seq<char>) -> bool;

/// `regex::escape`: a `\` is put before every meta character.
#[verifier::external_body]
fn regex_escape(s: &str) -> (r: String)
    ensures
        r@ == escaped(s@),
{
    regex::escape(s)
}

/// The pattern a compiled regular expression was built from (what
/// `regex::Regex::as_str` gives back).
pub uninterp spec fn regex_pattern(r: regex::Regex) -> Seq<char>;

/// Whether regular expression `p` matches somewhere in `t`
/// (`regex::Regex::is_match` on the compiled `p`).
pub uninterp spec fn regex_matches(p: Seq<char>, t: Seq<char>) -> bool;

/// `regex::Regex::new`, with the error dropped: a regex exactly when the
/// pattern compiles, built from that pattern.
#[verifier::external_body]
fn regex_new(p: &str) -> (r: Option<regex::Regex>)
    ensures
        r is Some <==> regex_compiles(p@),
        r matches Some(x) ==> regex_pattern(x) == p@,
{
    regex::Regex::new(p).ok()
}

/// `regex::Regex::is_match`: whether the regex matches somewhere in
/// `text`, by the name `regex_matches` of its pattern and the text.
#[verifier::external_body]
fn regex_is_match(r: &regex::Regex, text: &str) -> (b: bool)
    ensures
        b == regex_matches(regex_pattern(*r), text@),
{
    r.is_match(text)
}

/// The anchored regular expression a glob stands for: `*` any run, `?`
/// one character, every other character literal.
pub open spec fn glob_regex_spec(glob: Seq<char>) -> Seq<char> {
    seq!['^'] + glob_body(glob) + seq!['$']
}

/// The translated body of a glob.
pub open spec fn glob_body(glob: Seq<char>) -> Seq<char>
    decreases glob.len(),
{
    if glob.len() == 0 {
        seq![]
    } else {
        let c = glob.last();
        glob_body(glob.drop_last()) + if c == '*' {
            seq!['.', '*']
        } else if c == '?' {
            seq!['.']
        } else {
            escaped(seq![c])
        }
    }
}

/// The anchored regular expression a glob stands for.
pub fn glob_regex(glob: &str) -> (r: String)
    ensures
        r@ == glob_regex_spec(glob@),
{
    let g = chars_of(glob);
    let mut re = String::new();
    push_char(&mut re, '^');
    let mut i: usize = 0;
    while i < g.len()
        invariant
            i <= g@.len(),
            g@ == glob@,
            re@ == seq!['^'] + glob_body(g@.subrange(0, i as int)),
        decreases g@.len() - i,
    {
        let c = g[i];
        assert(g@.subrange(0, i + 1).drop_last() =~= g@.subrange(0, i as int));
        if c == '*' {
            push_char(&mut re, '.');
            push_char(&mut re, '*');
            assert(re@ =~= seq!['^'] + glob_body(g@.subrange(0, i + 1)));
        } else if c == '?' {
            push_char(&mut re, '.');
            assert(re@ =~= seq!['^'] + glob_body(g@.subrange(0, i + 1)));
        } else {
            let mut one = String::new();
            push_char(&mut one, c);
            let e = regex_escape(one.as_str());
            let ghost before = re@;
            re.append(e.as_str());
            assert(re@ =~= seq!['^'] + glob_body(g@.subrange(0, i + 1)));
        }
        i += 1;
    }
    push_char(&mut re, '$');
    assert(g@.subrange(0, g@.len() as int) =~= g@);
    assert(re@ =~= glob_regex_spec(glob@));
    re
}

/// Whether `glob` matches `name` (see `glob_match`).
pub open spec fn glob_match_spec(glob: Seq<char>, name: Seq<char>) -> bool {
    glob == "*"@ || (regex_compiles(glob_regex_spec(glob)) && regex_matches(glob_regex_spec(glob), name))
}

/// Minimal shell-style glob match supporting `*` (any run) and `?` (one
/// char), anchored to the whole name. `*` alone matches everything; a glob
/// whose translation is not a valid regular expression matches nothing.
pub fn glob_match(glob: &str, name: &str) -> (r: bool)
    ensures
        r == glob_match_spec(glob@, name@),
{
    let star = chars_of("*");
    let g = chars_of(glob);
    if chars_eq(&g, &star) {
        return true;
    }
    let re = glob_regex(glob);
    match regex_new(re.as_str()) {
        Some(r) => regex_is_match(&r, name),
        None => false,
    }
}

/// Whether an autocommand entry applies to `event` on a buffer with the
/// given base name and full path: its event name parses to `event`, its
/// command is non-empty, and its pattern matches either name.
pub fn autocmd_applies(a: &Autocmd, event: Event, basename: &str, fullpath: &str) -> (r: bool)
    ensures
        r == (from_name_spec(a.event@) == Some(event) && a.command@.len() > 0 && (glob_match_spec(a.pattern@, basename@)
            || glob_match_spec(a.pattern@, fullpath@))),
{
    if Event::from_name(a.event.as_str()) != Some(event) {
        return false;
    }
    if chars_of(a.command.as_str()).len() == 0 {
        return false;
    }
    glob_match(a.pattern.as_str(), basename) || glob_match(a.pattern.as_str(), fullpath)
}

} // verus!
