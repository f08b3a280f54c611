//! Completion: the candidate items, the LSP item-kind labels, identifier
//! characters, the case-insensitive fuzzy filter, the word or path being
//! typed, and the buffer-word and file-path candidates.
use vstd::prelude::*;
use vstd::hash_set::StringHashSet;
use crate::buffer::{Buffer, line_content, line_count_spec};
use crate::order::{entry_view, entry_views, lemma_sort_elements, sort_entries, sort_entries_spec};
use crate::text::{
    alphanumeric, char_views, chars_of, copy_range, is_alphanumeric, last_char, lowercase,
    string_from, string_of, to_lowercase, extend_chars, views,
};

verus! {

/// Where a completion candidate came from.
#[derive(Debug, Clone, Copy, PartialEq, Eq, Structural)]
pub enum Source {
    Buffer,
    Lsp,
    Path,
}

/// The short popup label of an LSP `CompletionItemKind` value.
pub open spec fn kind_label_spec(kind: u64) -> Seq<char> {
    if kind == 1 { "text"@ }
    else if kind == 2 { "method"@ }
    else if kind == 3 { "fn"@ }
    else if kind == 4 { "ctor"@ }
    else if kind == 5 { "field"@ }
    else if kind == 6 { "var"@ }
    else if kind == 7 { "class"@ }
    else if kind == 8 { "interface"@ }
    else if kind == 9 { "module"@ }
    else if kind == 10 { "property"@ }
    else if kind == 11 { "unit"@ }
    else if kind == 12 { "value"@ }
    else if kind == 13 { "enum"@ }
    else if kind == 14 { "keyword"@ }
    else if kind == 15 { "snippet"@ }
    else if kind == 16 { "color"@ }
    else if kind == 17 { "file"@ }
    else if kind == 18 { "reference"@ }
    else if kind == 19 { "folder"@ }
    else if kind == 20 { "enum member"@ }
    else if kind == 21 { "const"@ }
    else if kind == 22 { "struct"@ }
    else if kind == 23 { "event"@ }
    else if kind == 24 { "operator"@ }
    else if kind == 25 { "type param"@ }
    else { "lsp"@ }
}

/// LSP `CompletionItemKind` numeric values (1-indexed) mapped to a short
/// label for the popup; `"lsp"` for any other value.
pub fn kind_label(kind: u64) -> (r: &'static str)
    ensures
        r@ == kind_label_spec(kind),
{
    match kind {
        1 => "text",
        2 => "method",
        3 => "fn",
        4 => "ctor",
        5 => "field",
        6 => "var",
        7 => "class",
        8 => "interface",
        9 => "module",
        10 => "property",
        11 => "unit",
        12 => "value",
        13 => "enum",
        14 => "keyword",
        15 => "snippet",
        16 => "color",
        17 => "file",
        18 => "reference",
        19 => "folder",
        20 => "enum member",
        21 => "const",
        22 => "struct",
        23 => "event",
        24 => "operator",
        25 => "type param",
        _ => "lsp",
    }
}

/// An identifier character: alphanumeric or `_`.
pub open spec fn word_char(c: char) -> bool {
    alphanumeric(c) || c == '_'
}

/// An identifier character: alphanumeric or `_`.
pub fn is_word_char(c: char) -> (r: bool)
    ensures
        r == word_char(c),
{
    is_alphanumeric(c) || c == '_'
}

/// `s` with every character replaced by its full lower-case mapping.
pub open spec fn lower_all(s: Seq<char>) -> Seq<char>
    decreases s.len(),
{
    if s.len() == 0 {
        seq![]
    } else {
        lower_all(s.drop_last()) + lowercase(s.last())
    }
}

/// Whether `p` can be found, in order, among the characters of `c`
/// (scanning `c` greedily once).
pub open spec fn subsequence(p: Seq<char>, c: Seq<char>) -> bool
    decreases c.len(),
{
    if p.len() == 0 {
        true
    } else if c.len() == 0 {
        false
    } else if c[0] == p[0] {
        subsequence(p.drop_first(), c.drop_first())
    } else {
        subsequence(p, c.drop_first())
    }
}

/// The case-insensitive fuzzy completion filter.
pub open spec fn matches_spec(candidate: Seq<char>, prefix: Seq<char>) -> bool {
    subsequence(lower_all(prefix), lower_all(candidate))
}

fn lower_chars(s: &str) -> (out: Vec<char>)
    ensures
        out@ == lower_all(s@),
{
    let v = chars_of(s);
    let mut out: Vec<char> = Vec::new();
    let mut i: usize = 0;
    while i < v.len()
        invariant
            i <= v@.len(),
            v@ == s@,
            out@ == lower_all(v@.subrange(0, i as int)),
        decreases v@.len() - i,
    {
        let l = to_lowercase(v[i]);
        extend_chars(&mut out, &l);
        assert(v@.subrange(0, i + 1).drop_last() =~= v@.subrange(0, i as int));
        i += 1;
    }
    assert(v@.subrange(0, v@.len() as int) =~= v@);
    out
}

/// LSP clients are responsible for filtering completion results: whether
/// the lower-cased `prefix` occurs, in order but not necessarily
/// contiguously, in the lower-cased `candidate`.
pub fn matches(candidate: &str, prefix: &str) -> (r: bool)
    ensures
        r == matches_spec(candidate@, prefix@),
{
    let c = lower_chars(candidate);
    let p = lower_chars(prefix);
    let mut i: usize = 0;
    let mut j: usize = 0;
    assert(p@.subrange(0, p@.len() as int) =~= p@);
    assert(c@.subrange(0, c@.len() as int) =~= c@);
    while i < p.len()
        invariant
            i <= p@.len(),
            j <= c@.len(),
            c@ == lower_all(candidate@),
            p@ == lower_all(prefix@),
            subsequence(p@, c@) == subsequence(p@.subrange(i as int, p@.len() as int), c@.subrange(
                j as int,
                c@.len() as int,
            )),
        decreases p@.len() - i + c@.len() - j,
    {
        if j >= c.len() {
            assert(c@.subrange(j as int, c@.len() as int).len() == 0);
            assert(p@.subrange(i as int, p@.len() as int).len() > 0);
            assert(!subsequence(p@.subrange(i as int, p@.len() as int), c@.subrange(j as int, c@.len() as int)));
            return false;
        }
        proof {
            let ps = p@.subrange(i as int, p@.len() as int);
            let cs = c@.subrange(j as int, c@.len() as int);
            assert(ps.drop_first() =~= p@.subrange(i + 1, p@.len() as int));
            assert(cs.drop_first() =~= c@.subrange(j + 1, c@.len() as int));
        }
        if c[j] == p[i] {
            i += 1;
        }
        j += 1;
    }
    assert(p@.subrange(i as int, p@.len() as int).len() == 0);
    assert(p@.subrange(0, p@.len() as int) =~= p@);
    assert(c@.subrange(0, c@.len() as int) =~= c@);
    true
}

/// The maximal runs of word characters of `s` from `i` on, as spans; `cur`
/// is where the run in progress started.
pub open spec fn word_runs_from(s: Seq<char>, cur: int, i: int) -> Seq<(int, int)>
    decreases s.len() - i,
{
    if i >= s.len() {
        if cur < s.len() { seq![(cur, s.len() as int)] } else { seq![] }
    } else if word_char(s[i]) {
        word_runs_from(s, cur, i + 1)
    } else if cur < i {
        seq![(cur, i)] + word_runs_from(s, i + 1, i + 1)
    } else {
        word_runs_from(s, i + 1, i + 1)
    }
}

/// The pieces of `text` between non-word characters, empty ones dropped.
pub open spec fn words_spec(text: Seq<char>) -> Seq<Seq<char>> {
    word_runs_from(text, 0, 0).map_values(|r: (int, int)| text.subrange(r.0, r.1))
}

/// `ws` with every repeat of an earlier element dropped.
pub open spec fn dedup(ws: Seq<Seq<char>>) -> Seq<Seq<char>>
    decreases ws.len(),
{
    if ws.len() == 0 {
        seq![]
    } else {
        let d = dedup(ws.drop_last());
        if d.contains(ws.last()) {
            d
        } else {
            d.push(ws.last())
        }
    }
}


/// The identifier words of `text` (split at every non-word character, empty
/// pieces dropped), each once, in order of first appearance.
pub fn words(text: &str) -> (out: Vec<String>)
    ensures
        views(out@) == dedup(words_spec(text@)),
{
    let s = chars_of(text);
    let mut out: Vec<String> = Vec::new();
    let mut cur: usize = 0;
    let mut i: usize = 0;
    let ghost all = word_runs_from(s@, 0, 0);
    let ghost done: Seq<(int, int)> = seq![];
    let ghost f = |r: (int, int)| s@.subrange(r.0, r.1);
    while i < s.len()
        invariant
            cur <= i <= s@.len(),
            s@ == text@,
            f == (|r: (int, int)| s@.subrange(r.0, r.1)),
            all == done + word_runs_from(s@, cur as int, i as int),
            all == word_runs_from(s@, 0, 0),
            views(out@) == dedup(done.map_values(f)),
        decreases s@.len() - i,
    {
        if is_word_char(s[i]) {
            i += 1;
        } else {
            if cur < i {
                let w = string_of(&s, cur, i);
                proof {
                    assert(word_runs_from(s@, cur as int, i as int) == seq![(cur as int, i as int)] + word_runs_from(s@, i + 1, i + 1));
                    assert(done + word_runs_from(s@, cur as int, i as int) =~= done.push((cur as int, i as int)) + word_runs_from(s@, i + 1, i + 1));
                    assert(done.push((cur as int, i as int)).map_values(f) =~= done.map_values(f).push(w@));
                    assert(done.map_values(f).push(w@).drop_last() =~= done.map_values(f));
                    done = done.push((cur as int, i as int));
                }
                push_unique(&mut out, w);
            }
            i += 1;
            cur = i;
        }
    }
    if cur < i {
        let w = string_of(&s, cur, i);
        proof {
            assert(done + word_runs_from(s@, cur as int, i as int) =~= done.push((cur as int, i as int)));
            assert(done.push((cur as int, i as int)).map_values(f) =~= done.map_values(f).push(w@));
            assert(done.map_values(f).push(w@).drop_last() =~= done.map_values(f));
            done = done.push((cur as int, i as int));
        }
        push_unique(&mut out, w);
    } else {
        assert(done + word_runs_from(s@, cur as int, i as int) =~= done);
    }
    assert(done.map_values(f) =~= words_spec(text@));
    out
}

/// Appends `w` to `out` unless an equal string is already there.
fn push_unique(out: &mut Vec<String>, w: String)
    ensures
        views(final(out)@) == if views(old(out)@).contains(w@) {
            views(old(out)@)
        } else {
            views(old(out)@).push(w@)
        },
{
    let mut k: usize = 0;
    while k < out.len()
        invariant
            k <= out@.len(),
            out@ == old(out)@,
            forall|a: int| 0 <= a < k ==> out@[a]@ != w@,
        decreases out@.len() - k,
    {
        if out[k] == w {
            assert(views(out@)[k as int] == w@);
            return;
        }
        k += 1;
    }
    assert(!views(out@).contains(w@)) by {
        if views(out@).contains(w@) {
            let a = choose|a: int| 0 <= a < views(out@).len() && views(out@)[a] == w@;
            assert(out@[a]@ == w@);
        }
    }
    out.push(w);
    assert(views(out@) =~= views(old(out)@).push(w@));
}


// ---------------------------------------------------------------- items

#[verifier::external_type_specification]
#[verifier::external_body]
pub struct ExJsonValue(serde_json::Value);

/// A completion candidate: what the popup shows, what acceptance inserts,
/// where it came from, and the LSP data carried along for it.
#[derive(Debug)]
pub struct Item {
    pub label: String,
    pub insert_text: String,
    pub detail: Option<String>,
    pub source: Source,
    pub edit: Option<serde_json::Value>,
    pub raw: Option<serde_json::Value>,
    pub snippet: bool,
    pub additional: Vec<serde_json::Value>,
    /// The LSP `CompletionItemKind` value, when the server sent one; `None`
    /// for buffer-word and path candidates.
    pub kind: Option<u64>,
}

/// What `serde_json::Value::get` gives for member `key` of a JSON value: the
/// member of an object that has it, none for another kind of value or a
/// missing member.
pub uninterp spec fn json_member(v: serde_json::Value, key: Seq<char>) -> Option<serde_json::Value>;

/// What `serde_json::Value::as_str` gives for a JSON value: the text of a
/// string, none for another kind of value.
pub uninterp spec fn json_text(v: serde_json::Value) -> Option<Seq<char>>;

/// `serde_json::Value::get`: the member `key` of a JSON object, by the
/// name `json_member`; what the member is depends on the value's content,
/// which is not visible here, so nothing more is stated.
#[verifier::external_body]
pub(crate) fn json_get<'a>(v: &'a serde_json::Value, key: &str) -> (r: Option<&'a serde_json::Value>)
    ensures
        match r {
            Some(x) => json_member(*v, key@) == Some(*x),
            None => json_member(*v, key@) is None,
        },
{
    v.get(key)
}

/// `serde_json::Value::as_str`: the text of a JSON string, copied, by the
/// name `json_text`; which values are strings is not visible here, so
/// nothing more is stated.
#[verifier::external_body]
pub(crate) fn json_str(v: &serde_json::Value) -> (r: Option<String>)
    ensures
        match r {
            Some(t) => json_text(*v) == Some(t@),
            None => json_text(*v) is None,
        },
{
    v.as_str().map(|t| t.to_string())
}

/// The documentation text of a raw LSP completion item: its
/// `documentation` member when that is a string, else that member's
/// `value` member when that is a string.
pub open spec fn raw_documentation(raw: serde_json::Value) -> Option<Seq<char>> {
    match json_member(raw, "documentation"@) {
        None => None,
        Some(doc) => match json_text(doc) {
            Some(t) => Some(t),
            None => match json_member(doc, "value"@) {
                Some(v) => json_text(v),
                None => None,
            },
        },
    }
}

/// Documentation text as shown: trimmed, none when absent or blank.
pub open spec fn shown_documentation(text: Option<Seq<char>>) -> Option<Seq<char>> {
    match text {
        Some(x) => if crate::text::trim(x).len() > 0 { Some(crate::text::trim(x)) } else { None },
        None => None,
    }
}

/// Documentation text as shown: trimmed, and none when blank.
pub fn documentation_text(text: Option<String>) -> (r: Option<String>)
    ensures
        match text {
            Some(x) => if crate::text::trim(x@).len() > 0 {
                (r matches Some(t) && t@ == crate::text::trim(x@))
            } else {
                r is None
            },
            None => r is None,
        },
{
    match text {
        Some(t) => {
            let trimmed = crate::text::trim_str(t.as_str());
            if trimmed.as_str().is_empty() {
                None
            } else {
                Some(trimmed)
            }
        },
        None => None,
    }
}

/// The documentation of a completion item, read from the raw LSP item: a
/// plain string, or the `value` of a markup object; trimmed, and none when
/// absent or blank.
pub fn item_documentation(item: &Item) -> (r: Option<String>)
    ensures
        match item.raw {
            None => r is None,
            Some(raw) => match shown_documentation(raw_documentation(raw)) {
                Some(t) => r matches Some(x) && x@ == t,
                None => r is None,
            },
        },
{
    let raw = match &item.raw {
        Some(v) => v,
        None => return None,
    };
    let doc = match json_get(raw, "documentation") {
        Some(d) => d,
        None => return None,
    };
    let text = match json_str(doc) {
        Some(t) => Some(t),
        None => match json_get(doc, "value") {
            Some(v) => json_str(v),
            None => None,
        },
    };
    documentation_text(text)
}

/// Whether `it` is a plain candidate (no LSP data) showing `label`,
/// inserting `insert` and coming from `src`.
pub open spec fn plain_item(it: Item, label: Seq<char>, insert: Seq<char>, src: Source) -> bool {
    &&& it.label@ == label
    &&& it.insert_text@ == insert
    &&& it.detail is None
    &&& it.source == src
    &&& it.edit is None
    &&& it.raw is None
    &&& !it.snippet
    &&& it.additional@.len() == 0
    &&& it.kind is None
}

fn plain(label: Vec<char>, insert: Vec<char>, src: Source) -> (it: Item)
    ensures
        plain_item(it, label@, insert@, src),
{
    Item {
        label: string_from(&label),
        insert_text: string_from(&insert),
        detail: None,
        source: src,
        edit: None,
        raw: None,
        snippet: false,
        additional: Vec::new(),
        kind: None,
    }
}

// ---------------------------------------------------------------- prefixes

/// Going back from `e` in `t`, the start of the run of chars satisfying
/// the word test (`path` adds `.`, `-` and `/`).
pub open spec fn run_start(t: Seq<char>, e: int, path: bool) -> int
    decreases e,
{
    if e > 0 && e <= t.len() && (word_char(t[e - 1]) || (path && (t[e - 1] == '.' || t[e - 1] == '-' || t[e - 1] == '/'))) {
        run_start(t, e - 1, path)
    } else {
        e
    }
}

proof fn lemma_run_start(t: Seq<char>, e: int, path: bool)
    requires
        0 <= e <= t.len(),
    ensures
        0 <= run_start(t, e, path) <= e,
    decreases e,
{
    if e > 0 && (word_char(t[e - 1]) || (path && (t[e - 1] == '.' || t[e - 1] == '-' || t[e - 1] == '/'))) {
        lemma_run_start(t, e - 1, path);
    }
}

/// The start and text of the run before column `col` (clamped) of line
/// `line`.
pub open spec fn prefix_at(s: Seq<char>, line: int, col: int, path: bool) -> (int, Seq<char>) {
    let t = line_content(s, line);
    let e = if col < t.len() { col } else { t.len() as int };
    let a = run_start(t, e, path);
    (a, t.subrange(a, e))
}

fn prefix_run(buf: &Buffer, line: usize, col: usize, path: bool) -> (r: (usize, String))
    ensures
        r.0 == prefix_at(buf.text(), line as int, col as int, path).0,
        r.1@ == prefix_at(buf.text(), line as int, col as int, path).1,
{
    let text = chars_of(buf.line_text(line).as_str());
    let e = if col < text.len() { col } else { text.len() };
    let mut start = e;
    proof {
        lemma_run_start(text@, e as int, path);
    }
    while start > 0 && (is_word_char(text[start - 1]) || (path && (text[start - 1] == '.' || text[start - 1] == '-' || text[start - 1] == '/')))
        invariant
            start <= e <= text@.len(),
            run_start(text@, start as int, path) == run_start(text@, e as int, path),
        decreases start,
    {
        start -= 1;
    }
    (start, string_from(&copy_range(&text, start, e)))
}

/// The identifier chars just before `(line, col)`: where they start and
/// what they are.
pub fn word_prefix(buf: &Buffer, line: usize, col: usize) -> (r: (usize, String))
    ensures
        r.0 == prefix_at(buf.text(), line as int, col as int, false).0,
        r.1@ == prefix_at(buf.text(), line as int, col as int, false).1,
{
    prefix_run(buf, line, col, false)
}

/// The path-shaped chars (identifier chars, `.`, `-`, `/`) just before
/// `(line, col)`, when they hold a `/`: where they start and what they are.
pub fn path_prefix(buf: &Buffer, line: usize, col: usize) -> (r: Option<(usize, String)>)
    ensures
        ({
            let p = prefix_at(buf.text(), line as int, col as int, true);
            if p.1.contains('/') {
                r matches Some(x) && x.0 == p.0 && x.1@ == p.1
            } else {
                r is None
            }
        }),
{
    let (start, prefix) = prefix_run(buf, line, col, true);
    let pc = chars_of(prefix.as_str());
    let mut i: usize = 0;
    while i < pc.len()
        invariant
            pc@ == prefix@,
            start == prefix_at(buf.text(), line as int, col as int, true).0,
            prefix@ == prefix_at(buf.text(), line as int, col as int, true).1,
            i <= pc@.len(),
            forall|k: int| 0 <= k < i ==> pc@[k] != '/',
        decreases pc@.len() - i,
    {
        if pc[i] == '/' {
            assert(prefix@[i as int] == '/');
            assert(prefix@.contains('/'));
            return Some((start, prefix));
        }
        i += 1;
    }
    None
}

// ---------------------------------------------------------------- paths

/// A path prefix split after its last `/` into the directory part (with
/// the `/`) and the file-name part.
pub open spec fn path_split(p: Seq<char>) -> (Seq<char>, Seq<char>) {
    match last_char(p, '/', 0, p.len() as int) {
        Some(i) => (p.subrange(0, i + 1), p.subrange(i + 1, p.len() as int)),
        None => (seq![], p),
    }
}

/// A path prefix split after its last `/` into the directory part (with
/// the `/`) and the file-name part; the directory part is what the
/// candidates are read from (under the buffer's directory unless it starts
/// with `/`).
pub fn path_parts(prefix: &str) -> (r: (String, String))
    ensures
        r.0@ == path_split(prefix@).0,
        r.1@ == path_split(prefix@).1,
{
    let p = chars_of(prefix);
    let n = p.len();
    match crate::text::find_last_char(&p, '/') {
        Some(i) => (string_from(&copy_range(&p, 0, i + 1)), string_from(&copy_range(&p, i + 1, n))),
        None => (String::new(), string_from(&p)),
    }
}

/// Whether a directory entry is offered for the file-name part `fp`: its
/// name starts with `fp`, and a dotfile only when `fp` starts with `.`.
pub open spec fn keep_entry(name: Seq<char>, fp: Seq<char>) -> bool {
    fp.is_prefix_of(name) && !(name.len() > 0 && name[0] == '.' && !(fp.len() > 0 && fp[0] == '.'))
}

/// The offered entries keyed for sorting: directories (key 0) before files
/// (key 1), then by name; the payload is the entry's index.
pub open spec fn path_keyed(es: Seq<(Seq<char>, bool)>, fp: Seq<char>) -> Seq<(usize, Seq<char>, usize)>
    decreases es.len(),
{
    if es.len() == 0 {
        seq![]
    } else {
        let r = path_keyed(es.drop_last(), fp);
        let e = es.last();
        if keep_entry(e.0, fp) {
            r.push((if e.1 { 0usize } else { 1usize }, e.0, (es.len() - 1) as usize))
        } else {
            r
        }
    }
}

/// The first `n` elements of `s` (all of them when there are fewer).
pub open spec fn take<A>(s: Seq<A>, n: int) -> Seq<A> {
    s.subrange(0, if s.len() < n { s.len() as int } else { n })
}

/// The views of directory entries `(name, is_dir)`.
pub open spec fn entries_view(es: Seq<(String, bool)>) -> Seq<(Seq<char>, bool)> {
    es.map_values(|e: (String, bool)| (e.0@, e.1))
}

/// A path candidate's label: the name, with a `/` for a directory.
pub open spec fn path_label(t: (usize, Seq<char>, usize)) -> Seq<char> {
    if t.0 == 0 { t.1.push('/') } else { t.1 }
}

/// The path candidates for a path prefix from the entries of its directory
/// (`entries`, as `(name, is_dir)` in the order read): the entries whose
/// name starts with the prefix's file-name part (dotfiles only for a `.`
/// part), directories first and then by name, at most 50; a directory's
/// label ends in `/`, and each inserts the prefix's directory part and the
/// label.
pub fn path_candidates(prefix: &str, entries: Vec<(String, bool)>) -> (r: Vec<Item>)
    ensures
        ({
            let (dp, fp) = path_split(prefix@);
            let top = take(sort_entries_spec(path_keyed(entries_view(entries@), fp)), 50);
            &&& r@.len() == top.len()
            &&& forall|k: int| 0 <= k < r@.len() ==> plain_item(#[trigger] r@[k], path_label(top[k]), dp + path_label(top[k]), Source::Path)
        }),
{
    let (dp, fp) = path_parts(prefix);
    let dpc = chars_of(dp.as_str());
    let fpc = chars_of(fp.as_str());
    let ghost es = entries_view(entries@);
    let mut keyed: Vec<(usize, Vec<char>, usize)> = Vec::new();
    let mut i: usize = 0;
    while i < entries.len()
        invariant
            i <= entries@.len(),
            es == entries_view(entries@),
            fpc@ == path_split(prefix@).1,
            entry_views(keyed@) == path_keyed(es.subrange(0, i as int), fpc@),
        decreases entries@.len() - i,
    {
        let name = chars_of(entries[i].0.as_str());
        assert(es.subrange(0, i + 1).drop_last() =~= es.subrange(0, i as int));
        assert(es.subrange(0, i + 1).last() == (name@, entries@[i as int].1));
        let starts = crate::text::starts_at(&name, 0, &fpc);
        assert(starts == fpc@.is_prefix_of(name@)) by {
            if fpc@.is_prefix_of(name@) {
                assert(name@.subrange(0, fpc@.len() as int) =~= fpc@);
            }
        }
        let dot = name.len() > 0 && name[0] == '.' && !(fpc.len() > 0 && fpc[0] == '.');
        if starts && !dot {
            let ghost before = keyed@;
            keyed.push((if entries[i].1 { 0 } else { 1 }, name, i));
            assert(entry_views(keyed@) =~= entry_views(before).push((if entries@[i as int].1 { 0usize } else { 1usize }, name@, i)));
        }
        i += 1;
    }
    assert(es.subrange(0, i as int) =~= es);
    let sorted = sort_entries(keyed);
    let ghost top = take(entry_views(sorted@), 50);
    let n = if sorted.len() < 50 { sorted.len() } else { 50 };
    let mut out: Vec<Item> = Vec::new();
    let mut k: usize = 0;
    while k < n
        invariant
            k <= n,
            n == top.len(),
            n <= sorted@.len(),
            top == take(entry_views(sorted@), 50),
            dpc@ == path_split(prefix@).0,
            out@.len() == k,
            forall|j: int| 0 <= j < k ==> plain_item(#[trigger] out@[j], path_label(top[j]), dpc@ + path_label(top[j]), Source::Path),
        decreases n - k,
    {
        let e = &sorted[k];
        assert(top[k as int] == entry_views(sorted@)[k as int]);
        let mut label = copy_range(e.1.as_slice(), 0, e.1.len());
        assert(e.1@.subrange(0, e.1@.len() as int) =~= e.1@);
        if e.0 == 0 {
            label.push('/');
        }
        let mut insert = copy_range(dpc.as_slice(), 0, dpc.len());
        assert(dpc@.subrange(0, dpc@.len() as int) =~= dpc@);
        extend_chars(&mut insert, label.as_slice());
        out.push(plain(label, insert, Source::Path));
        k += 1;
    }
    out
}

// ---------------------------------------------------------------- buffer words

/// `|a - b|`.
pub open spec fn absdiff(a: int, b: int) -> int {
    if a >= b { a - b } else { b - a }
}

/// Whether a candidate list already holds word `w`.
pub open spec fn has_word(acc: Seq<(usize, Seq<char>, usize)>, w: Seq<char>) -> bool {
    exists|k: int| 0 <= k < acc.len() && #[trigger] acc[k].1 == w
}

/// A word seen at distance `d` from the cursor line: a candidate when it is
/// longer than the prefix, starts with it, and was not seen before.
pub open spec fn bw_step(acc: Seq<(usize, Seq<char>, usize)>, w: Seq<char>, d: int, p: Seq<char>) -> Seq<(usize, Seq<char>, usize)> {
    if w.len() > p.len() && p.is_prefix_of(w) && !has_word(acc, w) {
        acc.push((d as usize, w, 0usize))
    } else {
        acc
    }
}

pub open spec fn bw_words(acc: Seq<(usize, Seq<char>, usize)>, ws: Seq<Seq<char>>, d: int, p: Seq<char>) -> Seq<(usize, Seq<char>, usize)>
    decreases ws.len(),
{
    if ws.len() == 0 {
        acc
    } else {
        bw_step(bw_words(acc, ws.drop_last(), d, p), ws.last(), d, p)
    }
}

/// The candidate words of the first `n` lines, in scan order, with their
/// distances from line `cur`.
pub open spec fn bw_lines(s: Seq<char>, n: int, cur: int, p: Seq<char>) -> Seq<(usize, Seq<char>, usize)>
    decreases n,
{
    if n <= 0 {
        seq![]
    } else {
        bw_words(bw_lines(s, n - 1, cur, p), words_spec(line_content(s, n - 1)), absdiff(n - 1, cur), p)
    }
}

/// The identifier words of `text` (split at every non-word character, empty
/// pieces dropped), in order.
fn word_list(text: &Vec<char>) -> (r: Vec<Vec<char>>)
    ensures
        char_views(r@) == words_spec(text@),
{
    let ghost s = text@;
    let mut out: Vec<Vec<char>> = Vec::new();
    let mut cur: usize = 0;
    let mut i: usize = 0;
    let ghost all = word_runs_from(s, 0, 0);
    let ghost done: Seq<(int, int)> = seq![];
    let ghost f = |r: (int, int)| s.subrange(r.0, r.1);
    while i < text.len()
        invariant
            cur <= i <= s.len(),
            s == text@,
            f == (|r: (int, int)| s.subrange(r.0, r.1)),
            all == done + word_runs_from(s, cur as int, i as int),
            all == word_runs_from(s, 0, 0),
            char_views(out@) == done.map_values(f),
        decreases s.len() - i,
    {
        if is_word_char(text[i]) {
            i += 1;
        } else {
            if cur < i {
                let w = copy_range(text, cur, i);
                proof {
                    assert(word_runs_from(s, cur as int, i as int) == seq![(cur as int, i as int)] + word_runs_from(s, i + 1, i + 1));
                    assert(done + word_runs_from(s, cur as int, i as int) =~= done.push((cur as int, i as int)) + word_runs_from(s, i + 1, i + 1));
                    assert(done.push((cur as int, i as int)).map_values(f) =~= done.map_values(f).push(w@));
                    done = done.push((cur as int, i as int));
                }
                let ghost before = out@;
                out.push(w);
                assert(char_views(out@) =~= char_views(before).push(w@));
            }
            i += 1;
            cur = i;
        }
    }
    if cur < i {
        let w = copy_range(text, cur, i);
        proof {
            assert(done + word_runs_from(s, cur as int, i as int) =~= done.push((cur as int, i as int)));
            assert(done.push((cur as int, i as int)).map_values(f) =~= done.map_values(f).push(w@));
            done = done.push((cur as int, i as int));
        }
        let ghost before = out@;
        out.push(w);
        assert(char_views(out@) =~= char_views(before).push(w@));
    } else {
        assert(done + word_runs_from(s, cur as int, i as int) =~= done);
    }
    out
}

/// The buffer's identifier words that extend `prefix` (case-sensitively,
/// longer than it), each once with its first line's distance from the
/// cursor line, nearest first and then alphabetically, at most 50; none for
/// an empty prefix.
pub fn buffer_word_candidates(buf: &Buffer, prefix: &str, cursor_line: usize) -> (r: Vec<Item>)
    ensures
        prefix@.len() == 0 ==> r@.len() == 0,
        prefix@.len() > 0 ==> ({
            let top = take(sort_entries_spec(bw_lines(buf.text(), line_count_spec(buf.text()), cursor_line as int, prefix@)), 50);
            &&& r@.len() == top.len()
            &&& forall|k: int| 0 <= k < r@.len() ==> plain_item(#[trigger] r@[k], top[k].1, top[k].1, Source::Buffer)
        }),
{
    let p = chars_of(prefix);
    if p.len() == 0 {
        return Vec::new();
    }
    let mut seen = StringHashSet::new();
    let mut scored: Vec<(usize, Vec<char>, usize)> = Vec::new();
    let n = buf.line_count();
    let mut line: usize = 0;
    while line < n
        invariant
            line <= n,
            n == line_count_spec(buf.text()),
            p@ == prefix@,
            entry_views(scored@) == bw_lines(buf.text(), line as int, cursor_line as int, p@),
            forall|w: Seq<char>| seen@.contains(w) <==> has_word(entry_views(scored@), w),
        decreases n - line,
    {
        let text = chars_of(buf.line_text(line).as_str());
        let ws = word_list(&text);
        let d = if line >= cursor_line { line - cursor_line } else { cursor_line - line };
        let ghost base = entry_views(scored@);
        let mut j: usize = 0;
        while j < ws.len()
            invariant
                j <= ws@.len(),
                char_views(ws@) == words_spec(text@),
                text@ == line_content(buf.text(), line as int),
                p@ == prefix@,
                d as int == absdiff(line as int, cursor_line as int),
                entry_views(scored@) == bw_words(base, char_views(ws@).subrange(0, j as int), d as int, p@),
                forall|w: Seq<char>| seen@.contains(w) <==> has_word(entry_views(scored@), w),
            decreases ws@.len() - j,
        {
            let w = &ws[j];
            assert(char_views(ws@).subrange(0, j + 1).drop_last() =~= char_views(ws@).subrange(0, j as int));
            assert(char_views(ws@).subrange(0, j + 1).last() == w@);
            let ghost acc = entry_views(scored@);
            let longer = w.len() > p.len();
            let starts = crate::text::starts_at(w.as_slice(), 0, &p);
            assert(starts == p@.is_prefix_of(w@)) by {
                if p@.is_prefix_of(w@) {
                    assert(w@.subrange(0, p@.len() as int) =~= p@);
                }
            }
            if longer && starts {
                let ws_str = string_from(w);
                let fresh = !seen.contains(ws_str.as_str());
                assert(fresh == !has_word(acc, w@));
                if fresh {
                    seen.insert(string_from(w));
                    let ghost before = scored@;
                    scored.push((d, copy_range(w.as_slice(), 0, w.len()), 0));
                    assert(w@.subrange(0, w@.len() as int) =~= w@);
                    assert(entry_views(scored@) =~= acc.push((d, w@, 0usize)));
                    assert forall|x: Seq<char>| seen@.contains(x) <==> has_word(entry_views(scored@), x) by {
                        if has_word(acc, x) {
                            let k = choose|k: int| 0 <= k < acc.len() && #[trigger] acc[k].1 == x;
                            assert(entry_views(scored@)[k].1 == x);
                        }
                        if x == w@ {
                            assert(entry_views(scored@)[acc.len() as int].1 == x);
                        }
                        if has_word(entry_views(scored@), x) && x != w@ {
                            let k = choose|k: int| 0 <= k < entry_views(scored@).len() && #[trigger] entry_views(scored@)[k].1 == x;
                            assert(acc[k].1 == x);
                        }
                    }
                }
            }
            j += 1;
        }
        assert(char_views(ws@).subrange(0, j as int) =~= words_spec(text@));
        line += 1;
    }
    let sorted = sort_entries(scored);
    let ghost top = take(entry_views(sorted@), 50);
    let m = if sorted.len() < 50 { sorted.len() } else { 50 };
    let mut out: Vec<Item> = Vec::new();
    let mut k: usize = 0;
    while k < m
        invariant
            k <= m,
            m == top.len(),
            m <= sorted@.len(),
            top == take(entry_views(sorted@), 50),
            out@.len() == k,
            forall|j: int| 0 <= j < k ==> plain_item(#[trigger] out@[j], top[j].1, top[j].1, Source::Buffer),
        decreases m - k,
    {
        let e = &sorted[k];
        assert(top[k as int] == entry_views(sorted@)[k as int]);
        let a = copy_range(e.1.as_slice(), 0, e.1.len());
        let b = copy_range(e.1.as_slice(), 0, e.1.len());
        assert(e.1@.subrange(0, e.1@.len() as int) =~= e.1@);
        out.push(plain(a, b, Source::Buffer));
        k += 1;
    }
    out
}

// ---------------------------------------------------------------- word index

/// The words of line `l` of `t`, each once, in order of first appearance.
pub open spec fn line_words(t: Seq<char>, l: int) -> Seq<Seq<char>> {
    dedup(words_spec(line_content(t, l)))
}

/// Where line `l` belongs in a cache, looking from entry `k` on: the first
/// entry whose line is not below `l`.
pub open spec fn key_pos_from(c: Seq<(int, Seq<Seq<char>>)>, l: int, k: int) -> int
    decreases c.len() - k,
{
    if k < 0 || k >= c.len() || c[k].0 >= l {
        k
    } else {
        key_pos_from(c, l, k + 1)
    }
}

/// Whether a cache holds line `l`.
pub open spec fn has_line(c: Seq<(int, Seq<Seq<char>>)>, l: int) -> bool {
    let k = key_pos_from(c, l, 0);
    k < c.len() && c[k].0 == l
}

/// A cache with line `l` holding `w`, replacing what it held.
pub open spec fn put(c: Seq<(int, Seq<Seq<char>>)>, l: int, w: Seq<Seq<char>>) -> Seq<(int, Seq<Seq<char>>)> {
    let k = key_pos_from(c, l, 0);
    if k < c.len() && c[k].0 == l {
        c.update(k, (l, w))
    } else {
        c.insert(k, (l, w))
    }
}

/// A cache with each line of `lo..hi` it lacks read from `t`.
pub open spec fn fill(c: Seq<(int, Seq<Seq<char>>)>, lo: int, hi: int, t: Seq<char>) -> Seq<(int, Seq<Seq<char>>)>
    decreases hi - lo,
{
    if lo >= hi {
        c
    } else {
        fill(if has_line(c, lo) { c } else { put(c, lo, line_words(t, lo)) }, lo + 1, hi, t)
    }
}

/// The cached lines within 200 lines of `line`.
pub open spec fn keep_near(c: Seq<(int, Seq<Seq<char>>)>, line: int) -> Seq<(int, Seq<Seq<char>>)>
    decreases c.len(),
{
    if c.len() == 0 {
        seq![]
    } else {
        let r = keep_near(c.drop_last(), line);
        if absdiff(c.last().0, line) <= 200 { r.push(c.last()) } else { r }
    }
}

/// Cached lines are kept in increasing order, each once.
pub open spec fn ascending(c: Seq<(int, Seq<Seq<char>>)>) -> bool {
    forall|i: int, j: int| 0 <= i < j < c.len() ==> c[i].0 < c[j].0
}

/// A word index's state: the buffer it belongs to, its cached lines, the
/// buffer's line count when it was built, and the line it last looked at.
pub struct IndexV {
    pub id: u64,
    pub lines: Seq<(int, Seq<Seq<char>>)>,
    pub line_count: int,
    pub last_line: int,
}

/// The index after looking at line `line` of a buffer (id `id`, text `t`,
/// cursor line `cursor`): rebuilt for another buffer or line count; lines
/// more than 200 away dropped; the lines within 200 read where missing;
/// the previous and the current line read again.
pub open spec fn refresh_v(v: IndexV, id: u64, t: Seq<char>, cursor: int, line: int) -> IndexV {
    let lc = line_count_spec(t);
    let v1 = if v.id != id || v.line_count != lc {
        IndexV { id: id, lines: seq![], line_count: lc, last_line: cursor }
    } else {
        v
    };
    let c2 = keep_near(v1.lines, line);
    let lo = if line >= 200 { line - 200 } else { 0 };
    let hi = if line + 201 <= lc { line + 201 } else { lc };
    let c3 = fill(c2, lo, hi, t);
    let c4 = if v1.last_line < lc { put(c3, v1.last_line, line_words(t, v1.last_line)) } else { c3 };
    let c5 = if line < lc { put(c4, line, line_words(t, line)) } else { c4 };
    IndexV { lines: c5, last_line: line, ..v1 }
}

/// The word-char run starting at `i`.
pub open spec fn word_run(s: Seq<char>, i: int) -> Seq<char>
    decreases s.len() - i,
{
    if i < 0 || i >= s.len() || !word_char(s[i]) {
        seq![]
    } else {
        seq![s[i]] + word_run(s, i + 1)
    }
}

/// The word under the cursor: the word chars before `col` and from it on.
pub open spec fn under_cursor(t: Seq<char>, line: int, col: int) -> Seq<char> {
    prefix_at(t, line, col, false).1 + word_run(line_content(t, line), col)
}

/// A word seen at distance `d`: a candidate when it is not the word under
/// the cursor, extends `p` and was not seen before.
pub open spec fn wi_step(acc: Seq<(usize, Seq<char>, usize)>, w: Seq<char>, d: int, p: Seq<char>, cur: Seq<char>) -> Seq<(usize, Seq<char>, usize)> {
    if w != cur && p.is_prefix_of(w) && w.len() > p.len() && !has_word(acc, w) {
        acc.push((d as usize, w, 0usize))
    } else {
        acc
    }
}

pub open spec fn wi_words(acc: Seq<(usize, Seq<char>, usize)>, ws: Seq<Seq<char>>, d: int, p: Seq<char>, cur: Seq<char>) -> Seq<(usize, Seq<char>, usize)>
    decreases ws.len(),
{
    if ws.len() == 0 {
        acc
    } else {
        wi_step(wi_words(acc, ws.drop_last(), d, p, cur), ws.last(), d, p, cur)
    }
}

/// The cached lines, nearest to `line` first (ties in line order), as
/// entries of their distance and position.
pub open spec fn near_order(c: Seq<(int, Seq<Seq<char>>)>, line: int) -> Seq<(usize, Seq<char>, usize)> {
    sort_entries_spec(Seq::new(c.len(), |j: int| (absdiff(c[j].0, line) as usize, Seq::<char>::empty(), j as usize)))
}

/// The candidates of the first `k` lines in order `ord`.
pub open spec fn wi_scan(c: Seq<(int, Seq<Seq<char>>)>, ord: Seq<(usize, Seq<char>, usize)>, k: int, p: Seq<char>, cur: Seq<char>) -> Seq<(usize, Seq<char>, usize)>
    decreases k,
{
    if k <= 0 {
        seq![]
    } else {
        wi_words(wi_scan(c, ord, k - 1, p, cur), c[ord[k - 1].2 as int].1, ord[k - 1].0 as int, p, cur)
    }
}

/// The word index's candidates: nearest first, then alphabetically, at
/// most 50.
pub open spec fn wi_top(c: Seq<(int, Seq<Seq<char>>)>, line: int, p: Seq<char>, cur: Seq<char>) -> Seq<(usize, Seq<char>, usize)> {
    let ord = near_order(c, line);
    take(sort_entries_spec(wi_scan(c, ord, ord.len() as int, p, cur)), 50)
}

pub open spec fn cache_view(c: Seq<(usize, Vec<String>)>) -> Seq<(int, Seq<Seq<char>>)> {
    c.map_values(|e: (usize, Vec<String>)| (e.0 as int, views(e.1@)))
}

proof fn lemma_key_pos(c: Seq<(int, Seq<Seq<char>>)>, l: int, k: int)
    requires
        0 <= k <= c.len(),
    ensures
        k <= key_pos_from(c, l, k) <= c.len(),
        forall|j: int| k <= j < key_pos_from(c, l, k) ==> c[j].0 < l,
        key_pos_from(c, l, k) < c.len() ==> c[key_pos_from(c, l, k)].0 >= l,
    decreases c.len() - k,
{
    if k < c.len() && c[k].0 < l {
        lemma_key_pos(c, l, k + 1);
    }
}

proof fn lemma_put_ascending(c: Seq<(int, Seq<Seq<char>>)>, l: int, w: Seq<Seq<char>>)
    requires
        ascending(c),
    ensures
        ascending(put(c, l, w)),
{
    lemma_key_pos(c, l, 0);
    let k = key_pos_from(c, l, 0);
    let r = put(c, l, w);
    assert forall|i: int, j: int| 0 <= i < j < r.len() implies r[i].0 < r[j].0 by {
        if !(k < c.len() && c[k].0 == l) {
            if i < k && j == k {
            } else if i == k && j > k {
                assert(r[j] == c[j - 1]);
                assert(c[k].0 <= c[j - 1].0 || k == j - 1);
            } else if i < k && j > k {
                assert(r[j] == c[j - 1]);
            } else if i > k {
                assert(r[i] == c[i - 1] && r[j] == c[j - 1]);
            }
        }
    }
}

proof fn lemma_fill_ascending(c: Seq<(int, Seq<Seq<char>>)>, lo: int, hi: int, t: Seq<char>)
    requires
        ascending(c),
    ensures
        ascending(fill(c, lo, hi, t)),
    decreases hi - lo,
{
    if lo < hi {
        let c1 = if has_line(c, lo) { c } else { put(c, lo, line_words(t, lo)) };
        if !has_line(c, lo) {
            lemma_put_ascending(c, lo, line_words(t, lo));
        }
        lemma_fill_ascending(c1, lo + 1, hi, t);
    }
}

proof fn lemma_keep_near(c: Seq<(int, Seq<Seq<char>>)>, line: int)
    requires
        ascending(c),
    ensures
        ascending(keep_near(c, line)),
        forall|i: int| 0 <= i < keep_near(c, line).len() ==> c.contains(#[trigger] keep_near(c, line)[i]),
    decreases c.len(),
{
    if c.len() > 0 {
        let d = c.drop_last();
        assert(ascending(d));
        lemma_keep_near(d, line);
        let r = keep_near(d, line);
        assert forall|i: int| 0 <= i < r.len() implies c.contains(#[trigger] r[i]) && r[i].0 < c.last().0 by {
            assert(d.contains(r[i]));
            let j = choose|j: int| 0 <= j < d.len() && d[j] == r[i];
            assert(c[j] == r[i]);
        }
        if absdiff(c.last().0, line) <= 200 {
            let r2 = r.push(c.last());
            assert forall|i: int| 0 <= i < r2.len() implies c.contains(#[trigger] r2[i]) by {
                if i == r.len() {
                    assert(c[c.len() - 1] == r2[i]);
                }
            }
        }
    }
}

/// Where line `l` belongs in a cache.
fn key_pos(c: &Vec<(usize, Vec<String>)>, l: usize) -> (k: usize)
    ensures
        k as int == key_pos_from(cache_view(c@), l as int, 0),
{
    let ghost cv = cache_view(c@);
    let mut k: usize = 0;
    while k < c.len()
        invariant
            k <= c@.len(),
            cv == cache_view(c@),
            key_pos_from(cv, l as int, k as int) == key_pos_from(cv, l as int, 0),
        decreases c@.len() - k,
    {
        if c[k].0 >= l {
            return k;
        }
        k = k + 1;
    }
    k
}

/// Sets line `l` of a cache to `w`.
fn put_line(c: &mut Vec<(usize, Vec<String>)>, l: usize, w: Vec<String>)
    ensures
        cache_view(final(c)@) == put(cache_view(old(c)@), l as int, views(w@)),
{
    let k = key_pos(c, l);
    let ghost cv = cache_view(c@);
    let ghost wv = views(w@);
    proof {
        lemma_key_pos(cv, l as int, 0);
    }
    if k < c.len() && c[k].0 == l {
        c.set(k, (l, w));
        proof {
            assert(cache_view(c@) =~= cv.update(k as int, (l as int, wv)));
        }
    } else {
        c.insert(k, (l, w));
        proof {
            assert(cache_view(c@) =~= cv.insert(k as int, (l as int, wv)));
        }
    }
}

/// Whether a cache holds line `l`.
fn has_line_exec(c: &Vec<(usize, Vec<String>)>, l: usize) -> (r: bool)
    ensures
        r == has_line(cache_view(c@), l as int),
{
    let k = key_pos(c, l);
    k < c.len() && c[k].0 == l
}

/// The cached lines within 200 lines of `line`.
fn keep_near_exec(c: Vec<(usize, Vec<String>)>, line: usize) -> (r: Vec<(usize, Vec<String>)>)
    ensures
        cache_view(r@) == keep_near(cache_view(c@), line as int),
{
    let ghost cv = cache_view(c@);
    let mut src = c;
    let mut out: Vec<(usize, Vec<String>)> = Vec::new();
    let ghost mut k: int = 0;
    proof {
        assert(cv.subrange(0, 0) =~= Seq::<(int, Seq<Seq<char>>)>::empty());
        assert(cache_view(src@) =~= cv.subrange(0, cv.len() as int));
    }
    while src.len() > 0
        invariant
            0 <= k <= cv.len(),
            cache_view(src@) == cv.subrange(k, cv.len() as int),
            cache_view(out@) == keep_near(cv.subrange(0, k), line as int),
        decreases src@.len(),
    {
        let ghost sv = src@;
        proof {
            assert(cache_view(sv).len() == sv.len());
            assert(cache_view(sv)[0] == cv[k]);
        }
        let e = src.remove(0);
        proof {
            assert(cv[k] == (e.0 as int, views(e.1@)));
            assert(cv.subrange(0, k + 1).drop_last() =~= cv.subrange(0, k));
            assert(src@ =~= sv.subrange(1, sv.len() as int));
            assert(cache_view(src@) =~= cache_view(sv).subrange(1, sv.len() as int));
            assert(cache_view(src@) =~= cv.subrange(k + 1, cv.len() as int));
        }
        let d = if e.0 >= line { e.0 - line } else { line - e.0 };
        if d <= 200 {
            let ghost before = out@;
            let ghost ev = (e.0 as int, views(e.1@));
            out.push(e);
            proof {
                assert(cache_view(out@) =~= cache_view(before).push(ev));
            }
        }
        proof {
            k = k + 1;
        }
    }
    proof {
        assert(cv.subrange(0, k) =~= cv);
    }
    out
}

/// The words of line `l`, each once.
fn line_words_exec(buf: &Buffer, l: usize) -> (r: Vec<String>)
    ensures
        views(r@) == line_words(buf.text(), l as int),
{
    words(buf.line_text(l).as_str())
}

/// The word-char run of `s` from `i` on.
fn word_run_exec(s: &Vec<char>, i: usize) -> (r: Vec<char>)
    ensures
        r@ == word_run(s@, i as int),
{
    let mut out: Vec<char> = Vec::new();
    let mut j = i;
    proof {
        assert(out@ + word_run(s@, j as int) == word_run(s@, i as int));
    }
    while j < s.len() && is_word_char(s[j])
        invariant
            i <= j,
            out@ + word_run(s@, j as int) == word_run(s@, i as int),
        decreases s@.len() - j,
    {
        let ghost before = out@;
        out.push(s[j]);
        proof {
            assert(word_run(s@, j as int) == seq![s@[j as int]] + word_run(s@, j + 1));
            assert(out@ + word_run(s@, j + 1) =~= before + word_run(s@, j as int));
        }
        j = j + 1;
    }
    proof {
        assert(word_run(s@, j as int) =~= Seq::<char>::empty());
        assert(out@ =~= out@ + word_run(s@, j as int));
    }
    out
}

/// Items for the first 50 sorted candidates.
fn top_items(sorted: &Vec<(usize, Vec<char>, usize)>) -> (out: Vec<Item>)
    ensures
        ({
            let top = take(entry_views(sorted@), 50);
            &&& out@.len() == top.len()
            &&& forall|k: int| 0 <= k < out@.len() ==> plain_item(#[trigger] out@[k], top[k].1, top[k].1, Source::Buffer)
        }),
{
    let ghost top = take(entry_views(sorted@), 50);
    let m = if sorted.len() < 50 { sorted.len() } else { 50 };
    let mut out: Vec<Item> = Vec::new();
    let mut k: usize = 0;
    while k < m
        invariant
            k <= m,
            m == top.len(),
            m <= sorted@.len(),
            top == take(entry_views(sorted@), 50),
            out@.len() == k,
            forall|j: int| 0 <= j < k ==> plain_item(#[trigger] out@[j], top[j].1, top[j].1, Source::Buffer),
        decreases m - k,
    {
        let e = &sorted[k];
        assert(top[k as int] == entry_views(sorted@)[k as int]);
        let a = copy_range(e.1.as_slice(), 0, e.1.len());
        let b = copy_range(e.1.as_slice(), 0, e.1.len());
        assert(e.1@.subrange(0, e.1@.len() as int) =~= e.1@);
        out.push(plain(a, b, Source::Buffer));
        k += 1;
    }
    out
}

/// A lazily filled cache of the words on the lines near the cursor, so
/// that completing in a large buffer does not rescan all of it.
pub struct WordIndex {
    id: u64,
    lines: Vec<(usize, Vec<String>)>,
    line_count: usize,
    last_line: usize,
}

impl WordIndex {
    /// The index's state.
    pub closed spec fn state(&self) -> IndexV {
        IndexV {
            id: self.id,
            lines: cache_view(self.lines@),
            line_count: self.line_count as int,
            last_line: self.last_line as int,
        }
    }

    /// The cached lines are in increasing order, each once.
    pub closed spec fn well_formed(&self) -> bool {
        ascending(cache_view(self.lines@))
    }

    /// An empty index for `buf`.
    pub fn new(buf: &Buffer) -> (r: WordIndex)
        ensures
            r.state() == (IndexV {
                id: buf.id,
                lines: seq![],
                line_count: line_count_spec(buf.text()),
                last_line: buf.cursor_line as int,
            }),
            r.well_formed(),
    {
        let r = WordIndex { id: buf.id, lines: Vec::new(), line_count: buf.line_count(), last_line: buf.cursor_line };
        proof {
            assert(cache_view(r.lines@) =~= Seq::<(int, Seq<Seq<char>>)>::empty());
        }
        r
    }

    /// Buffer-word candidates for `prefix` from the lines within 200 of
    /// `line`: the index is brought up to date first (rebuilt for another
    /// buffer or line count; missing nearby lines, the previous line and
    /// this one read again), then its words that extend `prefix` and are
    /// not the word under the cursor are offered once each, nearest first,
    /// then alphabetically, at most 50.
    pub fn candidates(&mut self, buf: &Buffer, prefix: &str, line: usize) -> (r: Vec<Item>)
        requires
            old(self).well_formed(),
            line + 201 <= usize::MAX,
        ensures
            final(self).well_formed(),
            final(self).state() == refresh_v(old(self).state(), buf.id, buf.text(), buf.cursor_line as int, line as int),
            ({
                let top = wi_top(
                    final(self).state().lines,
                    line as int,
                    prefix@,
                    under_cursor(buf.text(), line as int, buf.cursor_col as int),
                );
                &&& r@.len() == top.len()
                &&& forall|k: int| 0 <= k < r@.len() ==> plain_item(#[trigger] r@[k], top[k].1, top[k].1, Source::Buffer)
            }),
    {
        let ghost t = buf.text();
        let lc = buf.line_count();
        if self.id != buf.id || self.line_count != lc {
            *self = WordIndex::new(buf);
        }
        let ghost v1 = self.state();
        proof {
            assert(ascending(v1.lines));
        }
        let mut taken: Vec<(usize, Vec<String>)> = Vec::new();
        std::mem::swap(&mut taken, &mut self.lines);
        let mut cache = keep_near_exec(taken, line);
        proof {
            lemma_keep_near(v1.lines, line as int);
        }
        let ghost c2 = cache_view(cache@);
        let lo: usize = if line >= 200 { line - 200 } else { 0 };
        let hi: usize = if line + 201 <= lc { line + 201 } else { lc };
        let ghost c3 = fill(c2, lo as int, hi as int, t);
        proof {
            lemma_fill_ascending(c2, lo as int, hi as int, t);
        }
        let mut l = lo;
        while l < hi
            invariant
                t == buf.text(),
                fill(cache_view(cache@), l as int, hi as int, t) == c3,
                ascending(cache_view(cache@)),
            decreases hi - l,
        {
            if !has_line_exec(&cache, l) {
                let w = line_words_exec(buf, l);
                proof {
                    lemma_put_ascending(cache_view(cache@), l as int, views(w@));
                }
                put_line(&mut cache, l, w);
            }
            l = l + 1;
        }
        let last = self.last_line;
        if last < lc {
            let w = line_words_exec(buf, last);
            proof {
                lemma_put_ascending(cache_view(cache@), last as int, views(w@));
            }
            put_line(&mut cache, last, w);
        }
        if line < lc {
            let w = line_words_exec(buf, line);
            proof {
                lemma_put_ascending(cache_view(cache@), line as int, views(w@));
            }
            put_line(&mut cache, line, w);
        }
        self.lines = cache;
        self.last_line = line;
        let ghost cv = cache_view(self.lines@);
        // The word under the cursor.
        let (_start, pre) = word_prefix(buf, line, buf.cursor_col);
        let lt = chars_of(buf.line_text(line).as_str());
        let suf = word_run_exec(&lt, buf.cursor_col);
        let mut cur = chars_of(pre.as_str());
        extend_chars(&mut cur, &suf);
        let ghost curv = under_cursor(t, line as int, buf.cursor_col as int);
        let p = chars_of(prefix);
        // The cached lines, nearest first.
        let mut es: Vec<(usize, Vec<char>, usize)> = Vec::new();
        let ghost base = Seq::new(cv.len(), |j: int| (absdiff(cv[j].0, line as int) as usize, Seq::<char>::empty(), j as usize));
        let mut j: usize = 0;
        while j < self.lines.len()
            invariant
                j <= self.lines@.len(),
                cv == cache_view(self.lines@),
                base == Seq::new(cv.len(), |j: int| (absdiff(cv[j].0, line as int) as usize, Seq::<char>::empty(), j as usize)),
                entry_views(es@) == base.subrange(0, j as int),
            decreases self.lines@.len() - j,
        {
            let key = self.lines[j].0;
            let d = if key >= line { key - line } else { line - key };
            let ghost before = es@;
            es.push((d, Vec::new(), j));
            proof {
                assert(cv[j as int].0 == key as int);
                assert(entry_views(es@) =~= entry_views(before).push((d, Seq::<char>::empty(), j)));
                assert(base.subrange(0, j + 1) =~= base.subrange(0, j as int).push(base[j as int]));
            }
            j = j + 1;
        }
        proof {
            assert(base.subrange(0, cv.len() as int) =~= base);
        }
        let ord = sort_entries(es);
        let ghost ov = near_order(cv, line as int);
        proof {
            lemma_sort_elements(base);
            assert(entry_views(ord@) == ov);
        }
        let mut seen = StringHashSet::new();
        let mut scored: Vec<(usize, Vec<char>, usize)> = Vec::new();
        let mut k: usize = 0;
        while k < ord.len()
            invariant
                k <= ord@.len(),
                cv == cache_view(self.lines@),
                ov == near_order(cv, line as int),
                entry_views(ord@) == ov,
                ov.len() == cv.len(),
                base == Seq::new(cv.len(), |j: int| (absdiff(cv[j].0, line as int) as usize, Seq::<char>::empty(), j as usize)),
                forall|q: int| 0 <= q < base.len() ==> base.contains(#[trigger] sort_entries_spec(base)[q]),
                sort_entries_spec(base) == ov,
                p@ == prefix@,
                cur@ == curv,
                entry_views(scored@) == wi_scan(cv, ov, k as int, p@, cur@),
                forall|w: Seq<char>| seen@.contains(w) <==> has_word(entry_views(scored@), w),
            decreases ord@.len() - k,
        {
            let idx = ord[k].2;
            let d = ord[k].0;
            proof {
                assert(ov[k as int] == entry_view(ord@[k as int]));
                assert(base.contains(ov[k as int]));
                let w = choose|w: int| 0 <= w < base.len() && base[w] == ov[k as int];
                assert(idx as int == w);
            }
            let ws = &self.lines[idx].1;
            let ghost wsv = views(ws@);
            proof {
                assert(cv[idx as int].1 == wsv);
            }
            let ghost acc0 = entry_views(scored@);
            let mut m: usize = 0;
            while m < ws.len()
                invariant
                    m <= ws@.len(),
                    wsv == views(ws@),
                    p@ == prefix@,
                    cur@ == curv,
                    entry_views(scored@) == wi_words(acc0, wsv.subrange(0, m as int), d as int, p@, cur@),
                    forall|w: Seq<char>| seen@.contains(w) <==> has_word(entry_views(scored@), w),
                decreases ws@.len() - m,
            {
                let w = chars_of(ws[m].as_str());
                proof {
                    assert(wsv[m as int] == w@);
                    assert(wsv.subrange(0, m + 1).drop_last() =~= wsv.subrange(0, m as int));
                    assert(wsv.subrange(0, m + 1).last() == w@);
                }
                let ghost acc = entry_views(scored@);
                let longer = w.len() > p.len();
                let starts = crate::text::starts_at(w.as_slice(), 0, &p);
                let same = crate::text::chars_eq(&w, &cur);
                assert(starts == p@.is_prefix_of(w@)) by {
                    if p@.is_prefix_of(w@) {
                        assert(w@.subrange(0, p@.len() as int) =~= p@);
                    }
                }
                if longer && starts && !same {
                    let ws_str = string_from(&w);
                    let fresh = !seen.contains(ws_str.as_str());
                    assert(fresh == !has_word(acc, w@));
                    if fresh {
                        seen.insert(string_from(&w));
                        scored.push((d, copy_range(w.as_slice(), 0, w.len()), 0));
                        assert(w@.subrange(0, w@.len() as int) =~= w@);
                        assert(entry_views(scored@) =~= acc.push((d, w@, 0usize)));
                        assert forall|x: Seq<char>| seen@.contains(x) <==> has_word(entry_views(scored@), x) by {
                            if has_word(acc, x) {
                                let q = choose|q: int| 0 <= q < acc.len() && #[trigger] acc[q].1 == x;
                                assert(entry_views(scored@)[q].1 == x);
                            }
                            if x == w@ {
                                assert(entry_views(scored@)[acc.len() as int].1 == x);
                            }
                            if has_word(entry_views(scored@), x) && x != w@ {
                                let q = choose|q: int| 0 <= q < entry_views(scored@).len() && #[trigger] entry_views(scored@)[q].1 == x;
                                assert(acc[q].1 == x);
                            }
                        }
                    }
                }
                m = m + 1;
            }
            proof {
                assert(wsv.subrange(0, ws@.len() as int) =~= wsv);
                assert(ov[k as int].0 == d);
                assert(ov[k as int].2 == idx);
            }
            k = k + 1;
        }
        let sorted = sort_entries(scored);
        top_items(&sorted)
    }
}


// ---------------------------------------------------------------- server batches

/// The most server items one completion batch shows.
pub open spec fn batch_cap() -> int {
    200
}

/// The positions of the server's items that a completion batch shows:
/// those whose filter text matches `prefix`, in order, at most
/// [`batch_cap`] of them (the cap applies after matching).
pub open spec fn batch_kept(filters: Seq<Seq<char>>, prefix: Seq<char>) -> Seq<int>
    decreases filters.len(),
{
    if filters.len() == 0 {
        seq![]
    } else {
        let r = batch_kept(filters.drop_last(), prefix);
        if matches_spec(filters.last(), prefix) && r.len() < batch_cap() { r.push(filters.len() - 1) } else { r }
    }
}

/// Which of a server's completion items (by their filter texts) a batch
/// shows for the typed `prefix` (see [`batch_kept`]).
pub fn batch_items(filters: &Vec<String>, prefix: &str) -> (r: Vec<usize>)
    ensures
        r@.map_values(|k: usize| k as int) == batch_kept(crate::text::views(filters@), prefix@),
{
    let ghost fv = crate::text::views(filters@);
    let mut out: Vec<usize> = Vec::new();
    let mut i: usize = 0;
    while i < filters.len()
        invariant
            i <= filters@.len(),
            fv == crate::text::views(filters@),
            fv.len() == filters@.len(),
            out@.map_values(|k: usize| k as int) == batch_kept(fv.take(i as int), prefix@),
            out@.len() <= 200,
        decreases filters@.len() - i,
    {
        proof {
            assert(fv.take(i + 1).drop_last() =~= fv.take(i as int));
            assert(fv.take(i + 1).last() == fv[i as int]);
            assert(fv[i as int] == filters@[i as int]@);
            assert(out@.map_values(|k: usize| k as int).len() == out@.len());
        }
        if out.len() < 200 && matches(filters[i].as_str(), prefix) {
            let ghost before = out@;
            out.push(i);
            proof {
                assert(out@.map_values(|k: usize| k as int) =~= before.map_values(|k: usize| k as int).push(i as int));
            }
        }
        i += 1;
    }
    proof {
        assert(fv.take(fv.len() as int) =~= fv);
    }
    out
}


// ---------------------------------------------------------------- laws

/// Whether line `l` of `s` is the first line on which the identifier word
/// `w` occurs.
pub open spec fn first_line_of(s: Seq<char>, w: Seq<char>, l: int) -> bool {
    &&& words_spec(line_content(s, l)).contains(w)
    &&& forall|m: int| 0 <= m < l ==> !words_spec(line_content(s, m)).contains(w)
}

/// Whether candidate `e` carries, as its key, the number of lines between
/// line `cur` and the first line (of the first `n`) its word occurs on.
pub open spec fn keyed_by_first_line(s: Seq<char>, e: (usize, Seq<char>, usize), n: int, cur: int) -> bool {
    exists|l: int| 0 <= l < n && #[trigger] first_line_of(s, e.1, l) && e.0 as int == (if l >= cur { l - cur } else { cur - l })
}

/// Whether word `w` is a completion of prefix `p`: longer, and starting
/// with it.
pub open spec fn extends(w: Seq<char>, p: Seq<char>) -> bool {
    w.len() > p.len() && p.is_prefix_of(w)
}

proof fn lemma_bw_words(acc: Seq<(usize, Seq<char>, usize)>, ws: Seq<Seq<char>>, d: int, p: Seq<char>)
    ensures
        ({
            let r = bw_words(acc, ws, d, p);
            &&& r.len() >= acc.len()
            &&& forall|k: int| 0 <= k < acc.len() ==> #[trigger] r[k] == acc[k]
            &&& forall|k: int| acc.len() <= k < r.len() ==> {
                &&& (#[trigger] r[k]).0 == d as usize
                &&& ws.contains(r[k].1)
                &&& !has_word(acc, r[k].1)
                &&& extends(r[k].1, p)
            }
            &&& forall|w: Seq<char>| #[trigger] ws.contains(w) && extends(w, p) ==> has_word(r, w)
        }),
    decreases ws.len(),
{
    if ws.len() > 0 {
        let w0 = ws.drop_last();
        lemma_bw_words(acc, w0, d, p);
        let r0 = bw_words(acc, w0, d, p);
        let r = bw_words(acc, ws, d, p);
        let w = ws.last();
        assert(r == bw_step(r0, w, d, p));
        assert forall|k: int| acc.len() <= k < r.len() implies {
            &&& (#[trigger] r[k]).0 == d as usize
            &&& ws.contains(r[k].1)
            &&& !has_word(acc, r[k].1)
            &&& extends(r[k].1, p)
        } by {
            if k < r0.len() {
                assert(r[k] == r0[k]);
                let x = r0[k].1;
                assert(w0.contains(x));
                let j = choose|j: int| 0 <= j < w0.len() && w0[j] == x;
                assert(ws[j] == x);
            } else {
                assert(r[k] == (d as usize, w, 0usize));
                assert(ws[ws.len() - 1] == w);
                if has_word(acc, w) {
                    let j = choose|j: int| 0 <= j < acc.len() && #[trigger] acc[j].1 == w;
                    assert(r0[j] == acc[j]);
                    assert(has_word(r0, w));
                }
            }
        }
        assert forall|x: Seq<char>| #[trigger] ws.contains(x) && extends(x, p) implies has_word(r, x) by {
            let j = choose|j: int| 0 <= j < ws.len() && ws[j] == x;
            if j < ws.len() - 1 {
                assert(w0[j] == x);
                assert(w0.contains(x));
                let i = choose|i: int| 0 <= i < r0.len() && #[trigger] r0[i].1 == x;
                assert(r[i] == r0[i]);
            } else if has_word(r0, x) {
                let i = choose|i: int| 0 <= i < r0.len() && #[trigger] r0[i].1 == x;
                assert(r[i] == r0[i]);
            } else {
                assert(r[r.len() - 1].1 == x);
            }
        }
    }
}

/// Buffer-word candidates are found by nearness in either direction: each
/// candidate's key is the number of lines between the cursor line and the
/// first line its word occurs on, above or below alike; and every word of
/// the scanned lines that extends the prefix is a candidate.
pub proof fn law_candidates_keyed_by_distance(s: Seq<char>, n: int, cur: int, p: Seq<char>)
    requires
        0 <= n <= usize::MAX,
        0 <= cur <= usize::MAX,
    ensures
        forall|k: int| 0 <= k < bw_lines(s, n, cur, p).len() ==> keyed_by_first_line(s, #[trigger] bw_lines(s, n, cur, p)[k], n, cur),
        forall|l: int, w: Seq<char>| 0 <= l < n && #[trigger] words_spec(line_content(s, l)).contains(w) && extends(w, p) ==> #[trigger] has_word(bw_lines(s, n, cur, p), w),
    decreases n,
{
    if n > 0 {
        law_candidates_keyed_by_distance(s, n - 1, cur, p);
        let acc = bw_lines(s, n - 1, cur, p);
        let ws = words_spec(line_content(s, n - 1));
        let d = absdiff(n - 1, cur);
        let r = bw_lines(s, n, cur, p);
        assert(r == bw_words(acc, ws, d, p));
        lemma_bw_words(acc, ws, d, p);
        assert forall|k: int| 0 <= k < r.len() implies keyed_by_first_line(s, #[trigger] r[k], n, cur) by {
            if k < acc.len() {
                assert(r[k] == acc[k]);
                assert(keyed_by_first_line(s, acc[k], n - 1, cur));
                let l = choose|l: int| 0 <= l < n - 1 && #[trigger] first_line_of(s, acc[k].1, l)
                    && acc[k].0 as int == (if l >= cur { l - cur } else { cur - l });
                assert(first_line_of(s, r[k].1, l));
            } else {
                let w = r[k].1;
                assert forall|m: int| 0 <= m < n - 1 implies !words_spec(line_content(s, m)).contains(w) by {
                    if words_spec(line_content(s, m)).contains(w) {
                        assert(has_word(acc, w));
                    }
                }
                assert(first_line_of(s, w, n - 1));
                assert(0 <= d <= usize::MAX);
                assert(r[k].0 as int == d);
                assert(d == (if n - 1 >= cur { n - 1 - cur } else { cur - (n - 1) }));
            }
        }
        assert forall|l: int, w: Seq<char>| 0 <= l < n && #[trigger] words_spec(line_content(s, l)).contains(w) && extends(w, p) implies #[trigger] has_word(r, w) by {
            if l < n - 1 {
                assert(has_word(acc, w));
                let i = choose|i: int| 0 <= i < acc.len() && #[trigger] acc[i].1 == w;
                assert(r[i] == acc[i]);
            } else {
                assert(ws.contains(w));
            }
        }
    } else {
        assert(bw_lines(s, n, cur, p) =~= Seq::<(usize, Seq<char>, usize)>::empty());
    }
}

} // verus!
