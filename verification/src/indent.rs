//! Per-buffer indentation: a Vim modeline overrides an `.editorconfig`
//! entry, which overrides detection from the file's own content, which
//! falls back to the configured default.
use vstd::prelude::*;
use crate::buffer::FileFormat;
use crate::text::{
    ascii_lower_seq, char_views, chars_eq, chars_of, copy_range, eq_ignore_ascii_case, ends_with,
    find_char, find_seq, find_seq_from, is_ws, lines, line_vecs, next_char, parse_usize,
    parse_usize_spec, strip_all_lead, strip_all_lead_exec, string_from, to_ascii_lower, trim,
    trim_bounds, word_vecs, words,
};

verus! {

/// Where a buffer's indent settings came from.
#[derive(Debug, Clone, Copy, PartialEq, Eq, Structural)]
pub enum IndentSource {
    Modeline,
    EditorConfig,
    Detected,
    Default,
}

/// The display label of an indent source.
pub open spec fn label_spec(s: IndentSource) -> Seq<char> {
    match s {
        IndentSource::Modeline => "modeline"@,
        IndentSource::EditorConfig => ".editorconfig"@,
        IndentSource::Detected => "detected"@,
        IndentSource::Default => "default"@,
    }
}

impl IndentSource {
    /// The display label of this source.
    pub fn label(self) -> (r: &'static str)
        ensures
            r@ == label_spec(self),
    {
        match self {
            IndentSource::Modeline => "modeline",
            IndentSource::EditorConfig => ".editorconfig",
            IndentSource::Detected => "detected",
            IndentSource::Default => "default",
        }
    }
}


/// The indent settings of a buffer and where they came from.
#[derive(Debug, Clone, Copy, PartialEq, Eq, Structural)]
pub struct IndentSettings {
    pub tabstop: usize,
    pub shiftwidth: usize,
    pub expandtab: bool,
    pub source: IndentSource,
}

/// Indent settings as one source gives them: each may be unset.
#[derive(Debug, Clone, Copy, PartialEq, Eq, Structural)]
pub struct Partial {
    pub tabstop: Option<usize>,
    pub shiftwidth: Option<usize>,
    pub expandtab: Option<bool>,
}

/// No setting given.
pub open spec fn no_partial() -> Partial {
    Partial { tabstop: None, shiftwidth: None, expandtab: None }
}

impl Partial {
    /// Whether no setting is given.
    pub fn is_empty(&self) -> (r: bool)
        ensures
            r == (*self == no_partial()),
    {
        self.tabstop.is_none() && self.shiftwidth.is_none() && self.expandtab.is_none()
    }
}

/// `base` with the settings `p` gives replacing its own, labelled `source`.
pub open spec fn merge_spec(base: IndentSettings, p: Partial, source: IndentSource) -> IndentSettings {
    IndentSettings {
        tabstop: match p.tabstop { Some(v) => v, None => base.tabstop },
        shiftwidth: match p.shiftwidth { Some(v) => v, None => base.shiftwidth },
        expandtab: match p.expandtab { Some(v) => v, None => base.expandtab },
        source,
    }
}

/// `base` with the settings `p` gives replacing its own, labelled `source`.
pub fn merge(base: IndentSettings, p: Partial, source: IndentSource) -> (r: IndentSettings)
    ensures
        r == merge_spec(base, p, source),
{
    IndentSettings {
        tabstop: match p.tabstop { Some(v) => v, None => base.tabstop },
        shiftwidth: match p.shiftwidth { Some(v) => v, None => base.shiftwidth },
        expandtab: match p.expandtab { Some(v) => v, None => base.expandtab },
        source,
    }
}

/// The `.editorconfig` settings other than indentation that a buffer
/// applies on load; each may be unset.
#[derive(Debug, Clone, Copy, PartialEq, Eq, Structural)]
pub struct EcExtras {
    pub trim_trailing: Option<bool>,
    pub final_newline: Option<bool>,
    pub max_line_length: Option<usize>,
}

/// No extra setting given.
pub open spec fn no_extras() -> EcExtras {
    EcExtras { trim_trailing: None, final_newline: None, max_line_length: None }
}

// ---------------------------------------------------------------- .editorconfig

/// Whether a section glob matches a file name: `*` matches every name,
/// `*.ext` every name ending in `.ext`, anything else only itself.
pub open spec fn glob_matches_spec(glob: Seq<char>, name: Seq<char>) -> bool {
    if glob == seq!['*'] {
        true
    } else if glob.len() >= 2 && glob[0] == '*' && glob[1] == '.' {
        glob.subrange(1, glob.len() as int).is_suffix_of(name)
    } else {
        glob == name
    }
}

/// Whether a section glob matches a file name.
pub fn glob_matches(glob: &[char], name: &[char]) -> (r: bool)
    ensures
        r == glob_matches_spec(glob@, name@),
{
    if glob.len() == 1 && glob[0] == '*' {
        assert(glob@ =~= seq!['*']);
        return true;
    }
    assert(glob@ != seq!['*']);
    if glob.len() >= 2 && glob[0] == '*' && glob[1] == '.' {
        let tail = copy_range(glob, 1, glob.len());
        return ends_with(name, &tail);
    }
    chars_eq(glob, name)
}

/// `true`/`false` in any ASCII case.
pub open spec fn parse_bool_spec(v: Seq<char>) -> Option<bool> {
    if ascii_lower_seq(v) == "true"@ {
        Some(true)
    } else if ascii_lower_seq(v) == "false"@ {
        Some(false)
    } else {
        None
    }
}

/// `true`/`false` in any ASCII case.
pub fn parse_bool(v: &[char]) -> (r: Option<bool>)
    ensures
        r == parse_bool_spec(v@),
{
    let l = to_ascii_lower(v);
    if chars_eq(&l, &chars_of("true")) {
        Some(true)
    } else if chars_eq(&l, &chars_of("false")) {
        Some(false)
    } else {
        None
    }
}

/// An `.editorconfig` line, once trimmed: blank or a comment, a section
/// header with its glob, a `key = value` pair (both trimmed), or anything
/// else.
pub enum EcLine {
    Skip,
    Section(Seq<char>),
    Pair(Seq<char>, Seq<char>),
    Other,
}

/// What an `.editorconfig` line is.
pub open spec fn ec_line(raw: Seq<char>) -> EcLine {
    let l = trim(raw);
    if l.len() == 0 || l[0] == '#' || l[0] == ';' {
        EcLine::Skip
    } else if l.len() >= 2 && l[0] == '[' && l[l.len() - 1] == ']' {
        EcLine::Section(l.subrange(1, l.len() - 1))
    } else {
        let e = next_char(l, '=', 0, l.len() as int);
        if e < l.len() {
            EcLine::Pair(trim(l.subrange(0, e)), trim(l.subrange(e + 1, l.len() as int)))
        } else {
            EcLine::Other
        }
    }
}

/// An `.editorconfig` line, classified.
enum LineKind {
    Skip,
    Section(Vec<char>),
    Pair(Vec<char>, Vec<char>),
    Other,
}

/// The meaning of a classified line.
spec fn kind_view(k: LineKind) -> EcLine {
    match k {
        LineKind::Skip => EcLine::Skip,
        LineKind::Section(g) => EcLine::Section(g@),
        LineKind::Pair(a, b) => EcLine::Pair(a@, b@),
        LineKind::Other => EcLine::Other,
    }
}

fn classify(raw: &[char]) -> (r: LineKind)
    ensures
        kind_view(r) == ec_line(raw@),
{
    let (a, b) = trim_bounds(raw, 0, raw.len());
    assert(raw@.subrange(0, raw@.len() as int) =~= raw@);
    let l = copy_range(raw, a, b);
    let n = l.len();
    if n == 0 || l[0] == '#' || l[0] == ';' {
        return LineKind::Skip;
    }
    if n >= 2 && l[0] == '[' && l[n - 1] == ']' {
        return LineKind::Section(copy_range(&l, 1, n - 1));
    }
    let e = find_char(&l, '=', 0, n);
    if e < n {
        let (ka, kb) = trim_bounds(&l, 0, e);
        let (va, vb) = trim_bounds(&l, e + 1, n);
        LineKind::Pair(copy_range(&l, ka, kb), copy_range(&l, va, vb))
    } else {
        LineKind::Other
    }
}

/// The scan of a file for its indentation keys: whether the last section
/// header matched, the settings found in matching sections (later ones
/// overriding earlier ones), and whether any was found.
pub open spec fn indent_step(st: (bool, Partial, bool), l: EcLine, name: Seq<char>) -> (bool, Partial, bool) {
    match l {
        EcLine::Section(g) => (glob_matches_spec(g, name), st.1, st.2),
        EcLine::Pair(k, v) => if !st.0 {
            st
        } else if k == "indent_style"@ {
            (st.0, Partial { expandtab: Some(ascii_lower_seq(v) == ascii_lower_seq("space"@)), ..st.1 }, true)
        } else if k == "indent_size"@ {
            match parse_usize_spec(v) {
                Some(n) => (st.0, Partial { shiftwidth: Some(n), ..st.1 }, true),
                None => st,
            }
        } else if k == "tab_width"@ {
            match parse_usize_spec(v) {
                Some(n) => (st.0, Partial { tabstop: Some(n), ..st.1 }, true),
                None => st,
            }
        } else {
            st
        },
        _ => st,
    }
}

pub open spec fn indent_scan(ls: Seq<Seq<char>>, name: Seq<char>) -> (bool, Partial, bool)
    decreases ls.len(),
{
    if ls.len() == 0 {
        (false, no_partial(), false)
    } else {
        indent_step(indent_scan(ls.drop_last(), name), ec_line(ls.last()), name)
    }
}

/// The indentation an `.editorconfig` file gives the file `name`: the keys
/// `indent_style`, `indent_size` and `tab_width` of the sections whose glob
/// matches it, later sections overriding earlier ones; `tab_width` defaults
/// to `indent_size`; `None` when no key was found.
pub open spec fn parse_editorconfig_spec(text: Seq<char>, name: Seq<char>) -> Option<Partial> {
    let st = indent_scan(lines(text), name);
    let p = if st.1.tabstop is None { Partial { tabstop: st.1.shiftwidth, ..st.1 } } else { st.1 };
    if st.2 { Some(p) } else { None }
}

/// The indentation an `.editorconfig` file gives the file `name`.
pub fn parse_editorconfig(text: &str, name: &str) -> (r: Option<Partial>)
    ensures
        r == parse_editorconfig_spec(text@, name@),
{
    let ls = line_vecs(text);
    let nm = chars_of(name);
    let ghost all = lines(text@);
    let mut in_section = false;
    let mut p = Partial { tabstop: None, shiftwidth: None, expandtab: None };
    let mut found = false;
    let mut i: usize = 0;
    while i < ls.len()
        invariant
            i <= ls@.len(),
            char_views(ls@) == all,
            all == lines(text@),
            nm@ == name@,
            (in_section, p, found) == indent_scan(all.subrange(0, i as int), name@),
        decreases ls@.len() - i,
    {
        assert(all[i as int] == ls@[i as int]@);
        assert(all.subrange(0, i + 1).drop_last() =~= all.subrange(0, i as int));
        let k = classify(ls[i].as_slice());
        match k {
            LineKind::Section(g) => {
                in_section = glob_matches(&g, &nm);
            },
            LineKind::Pair(key, value) => {
                if in_section {
                    if chars_eq(&key, &chars_of("indent_style")) {
                        p.expandtab = Some(eq_ignore_ascii_case(&value, &chars_of("space")));
                        found = true;
                    } else if chars_eq(&key, &chars_of("indent_size")) {
                        if let Some(n) = crate::text::parse_usize(crate::text::string_from(&value).as_str()) {
                            p.shiftwidth = Some(n);
                            found = true;
                        }
                    } else if chars_eq(&key, &chars_of("tab_width")) {
                        if let Some(n) = crate::text::parse_usize(crate::text::string_from(&value).as_str()) {
                            p.tabstop = Some(n);
                            found = true;
                        }
                    }
                }
            },
            _ => {},
        }
        i += 1;
    }
    assert(all.subrange(0, i as int) =~= all);
    if p.tabstop.is_none() {
        p.tabstop = p.shiftwidth;
    }
    if found { Some(p) } else { None }
}


/// The scan of a file for its extra keys: whether the last section header
/// matched, and the values of `trim_trailing_whitespace`,
/// `insert_final_newline` and `max_line_length` found in matching sections
/// (later ones overriding earlier ones; unparsable values ignored).
pub open spec fn extras_step(st: (bool, EcExtras), l: EcLine, name: Seq<char>) -> (bool, EcExtras) {
    match l {
        EcLine::Section(g) => (glob_matches_spec(g, name), st.1),
        EcLine::Pair(k, v) => if !st.0 {
            st
        } else if k == "trim_trailing_whitespace"@ {
            match parse_bool_spec(v) {
                Some(b) => (st.0, EcExtras { trim_trailing: Some(b), ..st.1 }),
                None => st,
            }
        } else if k == "insert_final_newline"@ {
            match parse_bool_spec(v) {
                Some(b) => (st.0, EcExtras { final_newline: Some(b), ..st.1 }),
                None => st,
            }
        } else if k == "max_line_length"@ {
            match parse_usize_spec(v) {
                Some(n) => (st.0, EcExtras { max_line_length: Some(n), ..st.1 }),
                None => st,
            }
        } else {
            st
        },
        _ => st,
    }
}

pub open spec fn extras_scan(ls: Seq<Seq<char>>, name: Seq<char>) -> (bool, EcExtras)
    decreases ls.len(),
{
    if ls.len() == 0 {
        (false, no_extras())
    } else {
        extras_step(extras_scan(ls.drop_last(), name), ec_line(ls.last()), name)
    }
}

/// The extra settings one `.editorconfig` file gives the file `name`.
pub fn parse_file_extras(text: &str, name: &str) -> (r: EcExtras)
    ensures
        r == extras_scan(lines(text@), name@).1,
{
    let ls = line_vecs(text);
    let nm = chars_of(name);
    let ghost all = lines(text@);
    let mut in_section = false;
    let mut r = EcExtras { trim_trailing: None, final_newline: None, max_line_length: None };
    let mut i: usize = 0;
    while i < ls.len()
        invariant
            i <= ls@.len(),
            char_views(ls@) == all,
            all == lines(text@),
            nm@ == name@,
            (in_section, r) == extras_scan(all.subrange(0, i as int), name@),
        decreases ls@.len() - i,
    {
        assert(all[i as int] == ls@[i as int]@);
        assert(all.subrange(0, i + 1).drop_last() =~= all.subrange(0, i as int));
        let k = classify(ls[i].as_slice());
        match k {
            LineKind::Section(g) => {
                in_section = glob_matches(&g, &nm);
            },
            LineKind::Pair(key, value) => {
                if in_section {
                    if chars_eq(&key, &chars_of("trim_trailing_whitespace")) {
                        if let Some(b) = parse_bool(&value) {
                            r.trim_trailing = Some(b);
                        }
                    } else if chars_eq(&key, &chars_of("insert_final_newline")) {
                        if let Some(b) = parse_bool(&value) {
                            r.final_newline = Some(b);
                        }
                    } else if chars_eq(&key, &chars_of("max_line_length")) {
                        if let Some(n) = crate::text::parse_usize(crate::text::string_from(&value).as_str()) {
                            r.max_line_length = Some(n);
                        }
                    }
                }
            },
            _ => {},
        }
        i += 1;
    }
    assert(all.subrange(0, i as int) =~= all);
    r
}

/// The scan of a file for `end_of_line`: whether the last section header
/// matched, and the line ending of the last valid `lf`/`crlf`/`cr` value
/// (any ASCII case, key too) in a matching section.
pub open spec fn eol_step(st: (bool, Option<FileFormat>), l: EcLine, name: Seq<char>) -> (bool, Option<FileFormat>) {
    match l {
        EcLine::Section(g) => (glob_matches_spec(g, name), st.1),
        EcLine::Pair(k, v) => if st.0 && ascii_lower_seq(k) == ascii_lower_seq("end_of_line"@) {
            if ascii_lower_seq(v) == "lf"@ {
                (st.0, Some(FileFormat::Unix))
            } else if ascii_lower_seq(v) == "crlf"@ {
                (st.0, Some(FileFormat::Dos))
            } else if ascii_lower_seq(v) == "cr"@ {
                (st.0, Some(FileFormat::Mac))
            } else {
                st
            }
        } else {
            st
        },
        _ => st,
    }
}

pub open spec fn eol_scan(ls: Seq<Seq<char>>, name: Seq<char>) -> (bool, Option<FileFormat>)
    decreases ls.len(),
{
    if ls.len() == 0 {
        (false, None)
    } else {
        eol_step(eol_scan(ls.drop_last(), name), ec_line(ls.last()), name)
    }
}

/// The line ending one `.editorconfig` file gives the file `name`.
pub fn parse_editorconfig_eol(text: &str, name: &str) -> (r: Option<FileFormat>)
    ensures
        r == eol_scan(lines(text@), name@).1,
{
    let ls = line_vecs(text);
    let nm = chars_of(name);
    let ghost all = lines(text@);
    let mut in_section = false;
    let mut result: Option<FileFormat> = None;
    let mut i: usize = 0;
    while i < ls.len()
        invariant
            i <= ls@.len(),
            char_views(ls@) == all,
            all == lines(text@),
            nm@ == name@,
            (in_section, result) == eol_scan(all.subrange(0, i as int), name@),
        decreases ls@.len() - i,
    {
        assert(all[i as int] == ls@[i as int]@);
        assert(all.subrange(0, i + 1).drop_last() =~= all.subrange(0, i as int));
        let k = classify(ls[i].as_slice());
        match k {
            LineKind::Section(g) => {
                in_section = glob_matches(&g, &nm);
            },
            LineKind::Pair(key, value) => {
                if in_section && eq_ignore_ascii_case(&key, &chars_of("end_of_line")) {
                    let v = to_ascii_lower(&value);
                    if chars_eq(&v, &chars_of("lf")) {
                        result = Some(FileFormat::Unix);
                    } else if chars_eq(&v, &chars_of("crlf")) {
                        result = Some(FileFormat::Dos);
                    } else if chars_eq(&v, &chars_of("cr")) {
                        result = Some(FileFormat::Mac);
                    }
                }
            },
            _ => {},
        }
        i += 1;
    }
    assert(all.subrange(0, i as int) =~= all);
    result
}

/// Whether a line, trimmed, reads `root = true` or `root=true` (any ASCII
/// case).
pub open spec fn root_line(l: Seq<char>) -> bool {
    ascii_lower_seq(trim(l)) == ascii_lower_seq("root = true"@) || ascii_lower_seq(trim(l)) == ascii_lower_seq("root=true"@)
}

/// Whether an `.editorconfig` file declares itself the root.
pub open spec fn is_root_spec(text: Seq<char>) -> bool {
    exists|k: int| 0 <= k < lines(text).len() && root_line(#[trigger] lines(text)[k])
}

/// Whether an `.editorconfig` file declares itself the root.
pub fn is_root(text: &str) -> (r: bool)
    ensures
        r == is_root_spec(text@),
{
    let ls = line_vecs(text);
    let ghost all = lines(text@);
    let mut i: usize = 0;
    while i < ls.len()
        invariant
            i <= ls@.len(),
            char_views(ls@) == all,
            all == lines(text@),
            forall|k: int| 0 <= k < i ==> !root_line(#[trigger] all[k]),
        decreases ls@.len() - i,
    {
        assert(all[i as int] == ls@[i as int]@);
        let (a, b) = trim_bounds(ls[i].as_slice(), 0, ls[i].len());
        assert(ls@[i as int]@.subrange(0, ls@[i as int]@.len() as int) =~= ls@[i as int]@);
        let t = copy_range(ls[i].as_slice(), a, b);
        if eq_ignore_ascii_case(&t, &chars_of("root = true")) || eq_ignore_ascii_case(&t, &chars_of("root=true")) {
            assert(root_line(all[i as int]));
            return true;
        }
        i += 1;
    }
    false
}

/// The indentation the `.editorconfig` files `texts` (nearest the file
/// first) give the file `name`: the nearest file that gives any wins, and
/// the search stops at a root file.
pub open spec fn editorconfig_spec(texts: Seq<Seq<char>>, name: Seq<char>) -> Option<Partial>
    decreases texts.len(),
{
    if texts.len() == 0 {
        None
    } else if parse_editorconfig_spec(texts[0], name) is Some {
        parse_editorconfig_spec(texts[0], name)
    } else if is_root_spec(texts[0]) {
        None
    } else {
        editorconfig_spec(texts.drop_first(), name)
    }
}

/// The indentation the `.editorconfig` files `texts` (nearest the file
/// first) give the file `name`.
pub fn editorconfig(texts: &[String], name: &str) -> (r: Option<Partial>)
    ensures
        r == editorconfig_spec(crate::text::views(texts@), name@),
{
    let ghost all = crate::text::views(texts@);
    let mut i: usize = 0;
    assert(all.subrange(0, all.len() as int) =~= all);
    while i < texts.len()
        invariant
            i <= texts@.len(),
            all == crate::text::views(texts@),
            editorconfig_spec(all, name@) == editorconfig_spec(all.subrange(i as int, all.len() as int), name@),
        decreases texts@.len() - i,
    {
        let ghost rest = all.subrange(i as int, all.len() as int);
        assert(rest[0] == texts@[i as int]@);
        assert(rest.drop_first() =~= all.subrange(i + 1, all.len() as int));
        let t = texts[i].as_str();
        if let Some(p) = parse_editorconfig(t, name) {
            return Some(p);
        }
        if is_root(t) {
            return None;
        }
        i += 1;
    }
    None
}

/// The line ending the `.editorconfig` files `texts` (nearest the file
/// first) give the file `name`: the nearest file that gives one wins, and
/// the search stops at a root file.
pub open spec fn editorconfig_eol_spec(texts: Seq<Seq<char>>, name: Seq<char>) -> Option<FileFormat>
    decreases texts.len(),
{
    if texts.len() == 0 {
        None
    } else if eol_scan(lines(texts[0]), name).1 is Some {
        eol_scan(lines(texts[0]), name).1
    } else if is_root_spec(texts[0]) {
        None
    } else {
        editorconfig_eol_spec(texts.drop_first(), name)
    }
}

/// The line ending the `.editorconfig` files `texts` (nearest the file
/// first) give the file `name`; `None` when unset.
pub fn editorconfig_eol(texts: &[String], name: &str) -> (r: Option<FileFormat>)
    ensures
        r == editorconfig_eol_spec(crate::text::views(texts@), name@),
{
    let ghost all = crate::text::views(texts@);
    let mut i: usize = 0;
    assert(all.subrange(0, all.len() as int) =~= all);
    while i < texts.len()
        invariant
            i <= texts@.len(),
            all == crate::text::views(texts@),
            editorconfig_eol_spec(all, name@) == editorconfig_eol_spec(all.subrange(i as int, all.len() as int), name@),
        decreases texts@.len() - i,
    {
        let ghost rest = all.subrange(i as int, all.len() as int);
        assert(rest[0] == texts@[i as int]@);
        assert(rest.drop_first() =~= all.subrange(i + 1, all.len() as int));
        let t = texts[i].as_str();
        if let Some(e) = parse_editorconfig_eol(t, name) {
            return Some(e);
        }
        if is_root(t) {
            return None;
        }
        i += 1;
    }
    None
}

/// Each setting of `near`, or of `far` where `near` leaves it unset.
pub open spec fn extras_or(near: EcExtras, far: EcExtras) -> EcExtras {
    EcExtras {
        trim_trailing: if near.trim_trailing is Some { near.trim_trailing } else { far.trim_trailing },
        final_newline: if near.final_newline is Some { near.final_newline } else { far.final_newline },
        max_line_length: if near.max_line_length is Some { near.max_line_length } else { far.max_line_length },
    }
}

/// The extra settings the `.editorconfig` files `texts` (nearest the file
/// first) give the file `name`: each setting from the nearest file that
/// gives it, the files read up to and including a root file.
pub open spec fn editorconfig_extras_spec(texts: Seq<Seq<char>>, name: Seq<char>) -> EcExtras
    decreases texts.len(),
{
    if texts.len() == 0 {
        no_extras()
    } else {
        let here = extras_scan(lines(texts[0]), name).1;
        if is_root_spec(texts[0]) {
            here
        } else {
            extras_or(here, editorconfig_extras_spec(texts.drop_first(), name))
        }
    }
}

/// The extra settings the `.editorconfig` files `texts` (nearest the file
/// first) give the file `name`; unset keys stay `None`.
pub fn editorconfig_extras(texts: &[String], name: &str) -> (r: EcExtras)
    ensures
        r == editorconfig_extras_spec(crate::text::views(texts@), name@),
{
    let ghost all = crate::text::views(texts@);
    let mut out = EcExtras { trim_trailing: None, final_newline: None, max_line_length: None };
    let mut i: usize = 0;
    assert(all.subrange(0, all.len() as int) =~= all);
    while i < texts.len()
        invariant
            i <= texts@.len(),
            all == crate::text::views(texts@),
            editorconfig_extras_spec(all, name@) == extras_or(out, editorconfig_extras_spec(all.subrange(i as int, all.len() as int), name@)),
        decreases texts@.len() - i,
    {
        let ghost rest = all.subrange(i as int, all.len() as int);
        assert(rest[0] == texts@[i as int]@);
        assert(rest.drop_first() =~= all.subrange(i + 1, all.len() as int));
        let t = texts[i].as_str();
        let file = parse_file_extras(t, name);
        out.trim_trailing = if out.trim_trailing.is_some() { out.trim_trailing } else { file.trim_trailing };
        out.final_newline = if out.final_newline.is_some() { out.final_newline } else { file.final_newline };
        out.max_line_length = if out.max_line_length.is_some() { out.max_line_length } else { file.max_line_length };
        if is_root(t) {
            return out;
        }
        i += 1;
    }
    assert(all.subrange(i as int, all.len() as int) =~= Seq::<Seq<char>>::empty());
    out
}


// ---------------------------------------------------------------- modelines

/// What follows the first `vim:` in a line, else what follows the first
/// `vi:`, else nothing.
pub open spec fn marker_rest(line: Seq<char>) -> Option<Seq<char>> {
    match find_seq_from(line, "vim:"@, 0) {
        Some(i) => Some(line.subrange(i + 4, line.len() as int)),
        None => match find_seq_from(line, "vi:"@, 0) {
            Some(i) => Some(line.subrange(i + 3, line.len() as int)),
            None => None,
        },
    }
}

/// What follows the modeline marker of a line, if it has one.
pub fn find_modeline_marker(line: &[char]) -> (r: Option<Vec<char>>)
    ensures
        match r {
            Some(v) => marker_rest(line@) == Some(v@),
            None => marker_rest(line@) is None,
        },
{
    let n = line.len();
    let vim = chars_of("vim:");
    proof {
        reveal_strlit("vim:");
        reveal_strlit("vi:");
    }
    if let Some(i) = find_seq(line, &vim, 0) {
        proof {
            crate::text::lemma_find_seq_from(line@, vim@, 0);
            assert(vim@.len() == 4);
            assert(find_seq_from(line@, vim@, 0) == Some(i as int));
        }
        return Some(copy_range(line, i + 4, n));
    }
    let vi = chars_of("vi:");
    if let Some(i) = find_seq(line, &vi, 0) {
        proof {
            crate::text::lemma_find_seq_from(line@, vi@, 0);
            assert(vi@.len() == 3);
            assert(find_seq_from(line@, vi@, 0) == Some(i as int));
        }
        return Some(copy_range(line, i + 3, n));
    }
    None
}

/// The effect of one modeline option on the settings: `sw=`/`shiftwidth=`
/// and `ts=`/`tabstop=` set (or, unparsable, unset) a width;
/// `et`/`expandtab` and `noet`/`noexpandtab` set or clear expandtab.
pub open spec fn option_step(p: Partial, tok: Seq<char>) -> Partial {
    let e = next_char(tok, '=', 0, tok.len() as int);
    if e < tok.len() {
        let k = tok.subrange(0, e);
        let v = tok.subrange(e + 1, tok.len() as int);
        if k == "sw"@ || k == "shiftwidth"@ {
            Partial { shiftwidth: parse_usize_spec(v), ..p }
        } else if k == "ts"@ || k == "tabstop"@ {
            Partial { tabstop: parse_usize_spec(v), ..p }
        } else {
            p
        }
    } else if tok == "et"@ || tok == "expandtab"@ {
        Partial { expandtab: Some(true), ..p }
    } else if tok == "noet"@ || tok == "noexpandtab"@ {
        Partial { expandtab: Some(false), ..p }
    } else {
        p
    }
}

pub open spec fn options_scan(toks: Seq<Seq<char>>) -> Partial
    decreases toks.len(),
{
    if toks.len() == 0 {
        no_partial()
    } else {
        option_step(options_scan(toks.drop_last()), toks.last())
    }
}

/// The settings the text after a modeline marker gives: a leading `set `
/// dropped, the text cut at the first `:`, its whitespace-separated options
/// applied in order.
pub open spec fn modeline_options(rest: Seq<char>) -> Partial {
    let r1 = match crate::text::strip_prefix(rest, "set "@) {
        Some(t) => t,
        None => rest,
    };
    let r2 = r1.subrange(0, next_char(r1, ':', 0, r1.len() as int));
    options_scan(words(r2))
}

fn options_of(rest: &[char]) -> (r: Partial)
    ensures
        r == modeline_options(rest@),
{
    let set = chars_of("set ");
    proof {
        reveal_strlit("set ");
    }
    let r1 = if crate::text::starts_at(rest, 0, &set) {
        assert(rest@.subrange(0, set@.len() as int) == set@);
        assert(set@.is_prefix_of(rest@));
        copy_range(rest, set.len(), rest.len())
    } else {
        assert(!set@.is_prefix_of(rest@)) by {
            if set@.is_prefix_of(rest@) {
                assert(rest@.subrange(0, set@.len() as int) =~= set@);
            }
        }
        copy_range(rest, 0, rest.len())
    };
    assert(rest@.subrange(0, rest@.len() as int) =~= rest@);
    let colon = find_char(&r1, ':', 0, r1.len());
    let r2 = copy_range(&r1, 0, colon);
    let toks = word_vecs(&r2);
    let ghost all = words(r2@);
    let mut p = Partial { tabstop: None, shiftwidth: None, expandtab: None };
    let mut i: usize = 0;
    while i < toks.len()
        invariant
            i <= toks@.len(),
            char_views(toks@) == all,
            p == options_scan(all.subrange(0, i as int)),
        decreases toks@.len() - i,
    {
        assert(all[i as int] == toks@[i as int]@);
        assert(all.subrange(0, i + 1).drop_last() =~= all.subrange(0, i as int));
        let tok = &toks[i];
        let e = find_char(tok, '=', 0, tok.len());
        if e < tok.len() {
            let k = copy_range(tok, 0, e);
            let v = string_from(&copy_range(tok, e + 1, tok.len()));
            if chars_eq(&k, &chars_of("sw")) || chars_eq(&k, &chars_of("shiftwidth")) {
                p.shiftwidth = parse_usize(v.as_str());
            } else if chars_eq(&k, &chars_of("ts")) || chars_eq(&k, &chars_of("tabstop")) {
                p.tabstop = parse_usize(v.as_str());
            }
        } else if chars_eq(tok, &chars_of("et")) || chars_eq(tok, &chars_of("expandtab")) {
            p.expandtab = Some(true);
        } else if chars_eq(tok, &chars_of("noet")) || chars_eq(tok, &chars_of("noexpandtab")) {
            p.expandtab = Some(false);
        }
        i += 1;
    }
    assert(all.subrange(0, i as int) =~= all);
    p
}

/// The lines a modeline is looked for in: the first five, then the last
/// five from the end backwards.
pub open spec fn modeline_candidates(ls: Seq<Seq<char>>) -> Seq<Seq<char>> {
    let m = if ls.len() < 5 { ls.len() as int } else { 5 };
    ls.subrange(0, m) + Seq::new(m as nat, |k: int| ls[ls.len() - 1 - k])
}

/// The first candidate line with a modeline marker whose options give any
/// setting.
pub open spec fn modeline_from(cs: Seq<Seq<char>>) -> Option<Partial>
    decreases cs.len(),
{
    if cs.len() == 0 {
        None
    } else {
        match marker_rest(cs[0]) {
            Some(rest) => if modeline_options(rest) != no_partial() {
                Some(modeline_options(rest))
            } else {
                modeline_from(cs.drop_first())
            },
            None => modeline_from(cs.drop_first()),
        }
    }
}

/// The settings a Vim modeline in the text gives (`vim:`/`vi:` within the
/// first or last five lines).
pub open spec fn modeline_spec(text: Seq<char>) -> Option<Partial> {
    modeline_from(modeline_candidates(lines(text)))
}

/// The settings a Vim modeline in the text gives.
pub fn modeline(text: &str) -> (r: Option<Partial>)
    ensures
        r == modeline_spec(text@),
{
    let ls = line_vecs(text);
    let ghost all = lines(text@);
    let n = ls.len();
    let m = if n < 5 { n } else { 5 };
    let ghost cs = modeline_candidates(all);
    let mut i: usize = 0;
    assert(cs.subrange(0, cs.len() as int) =~= cs);
    while i < 2 * m
        invariant
            i <= 2 * m,
            n == ls@.len(),
            m == (if n < 5 { n } else { 5 }),
            char_views(ls@) == all,
            all == lines(text@),
            cs == modeline_candidates(all),
            cs.len() == 2 * m,
            modeline_from(cs) == modeline_from(cs.subrange(i as int, cs.len() as int)),
        decreases 2 * m - i,
    {
        let j = if i < m { i } else { n - 1 - (i - m) };
        assert(cs[i as int] == ls@[j as int]@);
        let ghost rest = cs.subrange(i as int, cs.len() as int);
        assert(rest[0] == cs[i as int]);
        assert(rest.drop_first() =~= cs.subrange(i + 1, cs.len() as int));
        match find_modeline_marker(ls[j].as_slice()) {
            Some(after) => {
                let p = options_of(&after);
                if !p.is_empty() {
                    return Some(p);
                }
            },
            None => {},
        }
        i += 1;
    }
    None
}

// ---------------------------------------------------------------- detection

/// The number of leading spaces of a line.
pub open spec fn lead_spaces(l: Seq<char>) -> int {
    l.len() - strip_all_lead(l, ' ').len()
}

/// Whether a line is indented with spaces and then has text: what follows
/// its leading spaces starts with a non-whitespace char.
pub open spec fn space_indented(l: Seq<char>) -> bool {
    l.len() > 0 && l[0] == ' ' && strip_all_lead(l, ' ').len() > 0 && !is_ws(strip_all_lead(l, ' ')[0])
}

/// Over the lines: the number indented with a tab, and the leading-space
/// counts of those indented with spaces (then text), in order.
pub open spec fn detect_scan(ls: Seq<Seq<char>>) -> (int, Seq<usize>)
    decreases ls.len(),
{
    if ls.len() == 0 {
        (0, seq![])
    } else {
        let st = detect_scan(ls.drop_last());
        let l = ls.last();
        if l.len() > 0 && l[0] == '\t' {
            (st.0 + 1, st.1)
        } else if space_indented(l) {
            (st.0, st.1.push(lead_spaces(l) as usize))
        } else {
            st
        }
    }
}

/// The smallest element of a non-empty sequence.
pub open spec fn seq_min(s: Seq<usize>) -> usize
    decreases s.len(),
{
    if s.len() <= 1 {
        s[0]
    } else {
        let m = seq_min(s.drop_last());
        if s.last() < m { s.last() } else { m }
    }
}

/// The indentation guessed from the first 2000 lines: more tab-indented
/// lines than space-indented ones means tabs; otherwise spaces, with the
/// smallest leading-space run as the shift width; nothing when no line is
/// indented.
pub open spec fn detect_spec(text: Seq<char>) -> Option<Partial> {
    let ls = lines(text);
    let head = ls.subrange(0, if ls.len() < 2000 { ls.len() as int } else { 2000 });
    let st = detect_scan(head);
    if st.0 == 0 && st.1.len() == 0 {
        None
    } else if st.0 > st.1.len() {
        Some(Partial { expandtab: Some(false), ..no_partial() })
    } else {
        Some(Partial { expandtab: Some(true), shiftwidth: Some(seq_min(st.1)), tabstop: None })
    }
}

/// The indentation guessed from the text's own lines.
pub fn detect(text: &str) -> (r: Option<Partial>)
    ensures
        r == detect_spec(text@),
{
    let ls = line_vecs(text);
    let ghost all = lines(text@);
    let n = if ls.len() < 2000 { ls.len() } else { 2000 };
    let ghost head = all.subrange(0, n as int);
    let mut tab_lines: usize = 0;
    let mut counts: Vec<usize> = Vec::new();
    let mut i: usize = 0;
    while i < n
        invariant
            i <= n <= ls@.len(),
            n <= 2000,
            char_views(ls@) == all,
            head == all.subrange(0, n as int),
            (tab_lines as int, counts@) == detect_scan(head.subrange(0, i as int)),
            tab_lines <= i,
        decreases n - i,
    {
        let l = &ls[i];
        assert(head[i as int] == l@);
        assert(head.subrange(0, i + 1).drop_last() =~= head.subrange(0, i as int));
        if l.len() > 0 && l[0] == '\t' {
            tab_lines += 1;
        } else if l.len() > 0 && l[0] == ' ' {
            let k = strip_all_lead_exec(l.as_slice(), 0, l.len(), ' ');
            assert(l@.subrange(0, l@.len() as int) =~= l@);
            if k < l.len() && !crate::text::is_whitespace(l[k]) {
                assert(strip_all_lead(l@, ' ')[0] == l@[k as int]);
                counts.push(k);
            }
        }
        i += 1;
    }
    assert(head.subrange(0, i as int) =~= head);
    if tab_lines == 0 && counts.len() == 0 {
        return None;
    }
    if tab_lines > counts.len() {
        return Some(Partial { tabstop: None, shiftwidth: None, expandtab: Some(false) });
    }
    let mut min = counts[0];
    let mut j: usize = 1;
    assert(counts@.subrange(0, 1).drop_last() =~= Seq::<usize>::empty());
    while j < counts.len()
        invariant
            1 <= j <= counts@.len(),
            min == seq_min(counts@.subrange(0, j as int)),
        decreases counts@.len() - j,
    {
        assert(counts@.subrange(0, j + 1).drop_last() =~= counts@.subrange(0, j as int));
        if counts[j] < min {
            min = counts[j];
        }
        j += 1;
    }
    assert(counts@.subrange(0, j as int) =~= counts@);
    Some(Partial { tabstop: None, shiftwidth: Some(min), expandtab: Some(true) })
}

// ---------------------------------------------------------------- resolution

/// A buffer's indent settings: a modeline wins, then the `.editorconfig`
/// files, then detection from the text, then the configured default.
pub open spec fn resolve_spec(editorconfigs: Seq<Seq<char>>, name: Option<Seq<char>>, text: Seq<char>, tabstop: usize, shiftwidth: usize, expandtab: bool) -> IndentSettings {
    let fallback = IndentSettings { tabstop, shiftwidth, expandtab, source: IndentSource::Default };
    match modeline_spec(text) {
        Some(p) => merge_spec(fallback, p, IndentSource::Modeline),
        None => match (match name { Some(n) => editorconfig_spec(editorconfigs, n), None => None }) {
            Some(p) => merge_spec(fallback, p, IndentSource::EditorConfig),
            None => match detect_spec(text) {
                Some(p) => merge_spec(fallback, p, IndentSource::Detected),
                None => fallback,
            },
        },
    }
}

/// A buffer's indent settings for `text`: `editorconfigs` are the
/// `.editorconfig` files from the file's directory upwards (nearest
/// first), `name` its file name (`None` for a buffer without a file), and
/// `tabstop`/`shiftwidth`/`expandtab` the configured default.
pub fn resolve(editorconfigs: &[String], name: Option<&str>, text: &str, tabstop: usize, shiftwidth: usize, expandtab: bool) -> (r: IndentSettings)
    ensures
        r == resolve_spec(crate::text::views(editorconfigs@), match name { Some(n) => Some(n@), None => None }, text@, tabstop, shiftwidth, expandtab),
{
    let fallback = IndentSettings { tabstop, shiftwidth, expandtab, source: IndentSource::Default };
    if let Some(p) = modeline(text) {
        return merge(fallback, p, IndentSource::Modeline);
    }
    if let Some(n) = name {
        if let Some(p) = editorconfig(editorconfigs, n) {
            return merge(fallback, p, IndentSource::EditorConfig);
        }
    }
    if let Some(p) = detect(text) {
        return merge(fallback, p, IndentSource::Detected);
    }
    fallback
}

} // verus!
