//! Language-server plumbing the editor computes itself: UTF-16 columns
//! (the LSP position unit), a file's language id and its project root, the
//! method and capability of each request, which requests and replies are
//! stale, the text edits a server sends, and the signature-help text.
use vstd::prelude::*;
use std::collections::HashMap;
use std::path::PathBuf;
use crate::text::{chars_of, copy_range, last_char, string_from, utf16_len};
use crate::rope::{line_start_of, line_text_of, lemma_line_start, num_lines, rope_len_chars, rope_len_lines, rope_line, rope_line_to_char, rope_text};
use ropey::Rope;

verus! {

/// What an in-flight language request was made for: its kind, file,
/// buffer revision, client and the document versions it saw.
pub struct RequestContext {
    pub kind: String,
    pub path: PathBuf,
    pub revision: u64,
    pub client: String,
    pub versions: HashMap<PathBuf, u64>,
}

/// The number of UTF-16 code units of `s[..k]`.
pub open spec fn utf16_prefix(s: Seq<char>, k: int) -> int
    decreases k,
{
    if k <= 0 || s.len() == 0 {
        0
    } else if k > s.len() {
        utf16_prefix(s, s.len() as int)
    } else {
        utf16_prefix(s, k - 1) + utf16_len(s[k - 1])
    }
}

proof fn lemma_utf16_prefix_bound(s: Seq<char>, k: int)
    requires
        0 <= k <= s.len(),
    ensures
        k <= utf16_prefix(s, k) <= 2 * k,
    decreases k,
{
    if k > 0 {
        lemma_utf16_prefix_bound(s, k - 1);
    }
}

proof fn lemma_utf16_prefix_mono(s: Seq<char>, j: int, k: int)
    requires
        0 <= j <= k <= s.len(),
    ensures
        utf16_prefix(s, j) + (k - j) <= utf16_prefix(s, k),
    decreases k - j,
{
    if j < k {
        lemma_utf16_prefix_mono(s, j, k - 1);
    }
}

/// The UTF-16 column of char column `col` in `s` (columns past the end
/// count the whole line).
pub fn utf16_col(s: &str, col: usize) -> (r: usize)
    requires
        2 * s@.len() <= usize::MAX,
    ensures
        r == utf16_prefix(s@, col as int),
{
    let v = chars_of(s);
    let n = if col < v.len() {
        col
    } else {
        v.len()
    };
    let mut i: usize = 0;
    let mut acc: usize = 0;
    proof {
        lemma_utf16_prefix_bound(v@, n as int);
    }
    while i < n
        invariant
            n <= v@.len(),
            v@ == s@,
            2 * s@.len() <= usize::MAX,
            i <= n,
            acc == utf16_prefix(v@, i as int),
        decreases n - i,
    {
        proof {
            lemma_utf16_prefix_bound(v@, i + 1);
        }
        let u: usize = if (v[i] as u32) < 0x10000 {
            1
        } else {
            2
        };
        acc = acc + u;
        i += 1;
    }
    assert(utf16_prefix(s@, col as int) == utf16_prefix(s@, n as int));
    acc
}

/// The char column reached by walking `s` from column `i`, having counted
/// `n` UTF-16 units, until the next char would pass `units`.
pub open spec fn col_from(s: Seq<char>, i: int, n: int, units: int) -> int
    decreases s.len() - i,
{
    if i < 0 || i >= s.len() {
        s.len() as int
    } else if n + utf16_len(s[i]) > units {
        i
    } else {
        col_from(s, i + 1, n + utf16_len(s[i]), units)
    }
}

/// The char column of UTF-16 offset `units` in `s`: the last column whose
/// prefix fits in `units` (an offset inside a surrogate pair or past the
/// end is clamped).
pub open spec fn col_of_units(s: Seq<char>, units: int) -> int {
    col_from(s, 0, 0, units)
}

/// Past the whole remaining text, the walk ends at the end.
proof fn lemma_col_from_end(s: Seq<char>, i: int, n: int, units: int)
    requires
        0 <= i <= s.len(),
        n + 2 * (s.len() - i) <= units,
    ensures
        col_from(s, i, n, units) == s.len(),
    decreases s.len() - i,
{
    if i < s.len() {
        lemma_col_from_end(s, i + 1, n + utf16_len(s[i]), units);
    }
}

/// Walking from a column whose prefix has been counted, with the units of
/// the prefix up to column `m`, ends at `m`.
proof fn lemma_col_walk(s: Seq<char>, i: int, m: int)
    requires
        0 <= i <= m <= s.len(),
    ensures
        col_from(s, i, utf16_prefix(s, i), utf16_prefix(s, m)) == m,
    decreases m - i,
{
    if i < m {
        lemma_utf16_prefix_mono(s, i + 1, m);
        lemma_col_walk(s, i + 1, m);
    } else if m < s.len() {
        assert(utf16_prefix(s, m + 1) == utf16_prefix(s, m) + utf16_len(s[m]));
    }
}

/// `utf16_to_col` undoes `utf16_col`: the UTF-16 offset of char column `c`
/// converts back to `c`, clamped to the line's length.
pub proof fn law_utf16_col_round_trip(s: Seq<char>, c: int)
    requires
        c >= 0,
    ensures
        col_of_units(s, utf16_prefix(s, c)) == if c < s.len() { c } else { s.len() as int },
{
    let m = if c < s.len() { c } else { s.len() as int };
    assert(utf16_prefix(s, c) == utf16_prefix(s, m));
    lemma_col_walk(s, 0, m);
}

/// Converts a UTF-16 offset into `s` to a char column.
pub fn utf16_to_col(s: &str, units: usize) -> (r: usize)
    requires
        2 * s@.len() <= usize::MAX,
    ensures
        r == col_of_units(s@, units as int),
        r <= s@.len(),
        utf16_prefix(s@, r as int) <= units,
        r < s@.len() ==> utf16_prefix(s@, r + 1) > units,
{
    let v = chars_of(s);
    let mut i: usize = 0;
    let mut n: usize = 0;
    while i < v.len()
        invariant
            v@ == s@,
            2 * s@.len() <= usize::MAX,
            i <= v@.len(),
            n == utf16_prefix(v@, i as int),
            n <= units,
            col_from(v@, i as int, n as int, units as int) == col_of_units(v@, units as int),
        decreases v@.len() - i,
    {
        proof {
            lemma_utf16_prefix_bound(v@, i + 1);
        }
        let u: usize = if (v[i] as u32) < 0x10000 {
            1
        } else {
            2
        };
        if n + u > units {
            return i;
        }
        n = n + u;
        i += 1;
    }
    v.len()
}


/// The extension of a file name as `Path::extension` gives it: what
/// follows the last `.`, unless the name has no `.`, starts with its only
/// `.`, or is `..`.
pub open spec fn extension_spec(name: Seq<char>) -> Option<Seq<char>> {
    if name == ".."@ {
        None
    } else {
        match last_char(name, '.', 0, name.len() as int) {
            Some(i) => if i == 0 { None } else { Some(name.subrange(i + 1, name.len() as int)) },
            None => None,
        }
    }
}

/// The language id of a file, from its name's extension, lower-cased.
pub fn language(file_name: &str) -> (r: Option<&'static str>)
    ensures
        match extension_spec(file_name@) {
            Some(ext) => match crate::lsp::lang_id_spec(crate::text::str_lowercase(ext)) {
                Some(id) => r matches Some(x) && x@ == id,
                None => r is None,
            },
            None => r is None,
        },
{
    let v = chars_of(file_name);
    let dots = chars_of("..");
    proof {
        reveal_strlit("..");
    }
    if crate::text::chars_eq(&v, &dots) {
        return None;
    }
    match crate::text::find_last_char(&v, '.') {
        Some(i) => {
            if i == 0 {
                return None;
            }
            let n = v.len();
            let ext = string_from(&crate::text::copy_range(&v, i + 1, n));
            let low = crate::text::lowercase_str(ext.as_str());
            crate::lsp::lang_id_for_extension(low.as_str())
        },
        None => None,
    }
}

/// The index of the first set flag at or after `i`, or 0 when none is set.
pub open spec fn first_marked(flags: Seq<bool>, i: int) -> int
    decreases flags.len() - i,
{
    if i < 0 || i >= flags.len() {
        0
    } else if flags[i] {
        i
    } else {
        first_marked(flags, i + 1)
    }
}

/// The project root of a file for a language server: the nearest of its
/// ancestor directories (`ancestors`, from the file's own directory
/// upwards) in which one of the server's root markers exists
/// (`has_marker`, one flag per ancestor), else the file's own directory.
pub fn root(ancestors: &[String], has_marker: &[bool]) -> (r: String)
    requires
        ancestors@.len() >= 1,
        has_marker@.len() == ancestors@.len(),
    ensures
        r@ == ancestors@[first_marked(has_marker@, 0)]@,
{
    let mut i: usize = 0;
    while i < ancestors.len()
        invariant
            i <= ancestors@.len(),
            has_marker@.len() == ancestors@.len(),
            first_marked(has_marker@, 0) == first_marked(has_marker@, i as int),
        decreases ancestors@.len() - i,
    {
        if has_marker[i] {
            return string_from(&chars_of(ancestors[i].as_str()));
        }
        i += 1;
    }
    string_from(&chars_of(ancestors[0].as_str()))
}

/// A position of a language-server text edit as the server sent it: its
/// line and UTF-16 column, each absent when the message lacks it or holds
/// no unsigned integer there.
pub struct RawPos {
    pub line: Option<u64>,
    pub character: Option<u64>,
}

/// A language-server text edit as the server sent it: its range (under
/// `range`, or `replace` for an insert-replace edit) and its new text.
pub struct RawEdit {
    pub range: Option<(RawPos, RawPos)>,
    pub new_text: Option<String>,
}

/// `s` without its trailing `\r` and `\n` chars.
pub open spec fn trim_breaks(s: Seq<char>) -> Seq<char>
    decreases s.len(),
{
    if s.len() > 0 && (s.last() == '\r' || s.last() == '\n') {
        trim_breaks(s.drop_last())
    } else {
        s
    }
}

/// The char offset in text `t` of an edit position: one past the last line
/// stands for the end of the text; on an existing line the UTF-16 column is
/// clamped to the line's text without its line break.
pub open spec fn edit_offset(t: Seq<char>, p: RawPos) -> Result<int, Seq<char>> {
    match p.line {
        None => Err("missing edit line"@),
        Some(line) => match p.character {
            None => Err("missing edit column"@),
            Some(units) => if line == num_lines(t) {
                Ok(t.len() as int)
            } else if line > num_lines(t) {
                Err("edit line out of range"@)
            } else {
                Ok(line_start_of(t, line as int) + col_of_units(
                    trim_breaks(line_text_of(t, line as int)),
                    units as int,
                ))
            },
        },
    }
}

/// One edit, checked in order: its range, its start, its end, that the
/// start does not pass the end, and its text.
pub open spec fn edit_of(t: Seq<char>, e: RawEdit) -> Result<(int, int, Seq<char>), Seq<char>> {
    match e.range {
        None => Err("missing edit range"@),
        Some(r) => match edit_offset(t, r.0) {
            Err(m) => Err(m),
            Ok(a) => match edit_offset(t, r.1) {
                Err(m) => Err(m),
                Ok(b) => if a > b {
                    Err("reversed edit range"@)
                } else {
                    match e.new_text {
                        None => Err("missing edit text"@),
                        Some(x) => Ok((a, b, x@)),
                    }
                },
            },
        },
    }
}

/// The edits checked one after another; the first error stops the walk.
pub open spec fn edits_of(t: Seq<char>, es: Seq<RawEdit>) -> Result<Seq<(int, int, Seq<char>)>, Seq<char>>
    decreases es.len(),
{
    if es.len() == 0 {
        Ok(Seq::empty())
    } else {
        match edits_of(t, es.drop_last()) {
            Err(m) => Err(m),
            Ok(acc) => match edit_of(t, es.last()) {
                Err(m) => Err(m),
                Ok(x) => Ok(acc.push(x)),
            },
        }
    }
}

/// Whether the range of `x` comes before that of `y`, by start, then end.
pub open spec fn range_before(x: (int, int, Seq<char>), y: (int, int, Seq<char>)) -> bool {
    x.0 < y.0 || (x.0 == y.0 && x.1 < y.1)
}

/// Edits `i` and `j` have different ranges, and if `j`'s comes first it
/// ends where `i`'s starts, or before.
pub open spec fn apart(s: Seq<(int, int, Seq<char>)>, i: int, j: int) -> bool {
    &&& !(s[i].0 == s[j].0 && s[i].1 == s[j].1)
    &&& (range_before(s[j], s[i]) ==> s[j].1 <= s[i].0)
}

/// No two edits have the same range, and of two edits the one with the
/// earlier range ends where the later starts, or before.
pub open spec fn edits_disjoint(s: Seq<(int, int, Seq<char>)>) -> bool {
    forall|i: int, j: int| 0 <= i < s.len() && 0 <= j < s.len() && i != j ==> #[trigger] apart(s, i, j)
}

/// Whether the ranges come from last to first.
pub open spec fn ranges_descending(s: Seq<(int, int, Seq<char>)>) -> bool {
    forall|i: int, j: int| 0 <= i < j < s.len() ==> range_before(s[j], s[i])
}

/// An edit by its plain values.
pub open spec fn edit_view(e: (usize, usize, String)) -> (int, int, Seq<char>) {
    (e.0 as int, e.1 as int, e.2@)
}

/// A list of edits by their plain values.
pub open spec fn edits_view(v: Seq<(usize, usize, String)>) -> Seq<(int, int, Seq<char>)> {
    v.map_values(|e: (usize, usize, String)| edit_view(e))
}

fn err_text(m: &str) -> (r: String)
    ensures
        r@ == m@,
{
    String::from_str(m)
}

fn edit_offset_in(rope: &Rope, p: &RawPos) -> (r: Result<usize, String>)
    requires
        2 * rope_text(*rope).len() <= usize::MAX,
    ensures
        match edit_offset(rope_text(*rope), *p) {
            Ok(o) => r matches Ok(x) && x == o,
            Err(m) => r matches Err(f) && f@ == m,
        },
{
    let line = match p.line {
        None => return Err(err_text("missing edit line")),
        Some(l) => l,
    };
    let units = match p.character {
        None => return Err(err_text("missing edit column")),
        Some(u) => u,
    };
    let ghost t = rope_text(*rope);
    let n = rope_len_lines(rope);
    let n64: u64 = n as u64;
    if line == n64 {
        return Ok(rope_len_chars(rope));
    }
    if line > n64 {
        return Err(err_text("edit line out of range"));
    }
    let li: usize = line as usize;
    proof {
        lemma_line_start(t, li as int);
    }
    let text = rope_line(rope, li);
    let v = chars_of(text.as_str());
    let mut k: usize = v.len();
    assert(v@.subrange(0, v@.len() as int) =~= v@);
    while k > 0 && (v[k - 1] == '\r' || v[k - 1] == '\n')
        invariant
            k <= v@.len(),
            trim_breaks(v@.subrange(0, k as int)) == trim_breaks(v@),
        decreases k,
    {
        assert(v@.subrange(0, k as int).drop_last() =~= v@.subrange(0, k - 1));
        k -= 1;
    }
    let ghost kept = v@.subrange(0, k as int);
    assert(trim_breaks(kept) == kept);
    let kept_text = string_from(&copy_range(&v, 0, k));
    let cap: usize = if units > usize::MAX as u64 {
        usize::MAX
    } else {
        units as usize
    };
    proof {
        if units > usize::MAX as u64 {
            lemma_col_from_end(kept, 0, 0, cap as int);
            lemma_col_from_end(kept, 0, 0, units as int);
        }
    }
    let col = utf16_to_col(kept_text.as_str(), cap);
    let start = rope_line_to_char(rope, li);
    Ok(start + col)
}

fn edit_in(rope: &Rope, e: &RawEdit) -> (r: Result<(usize, usize, String), String>)
    requires
        2 * rope_text(*rope).len() <= usize::MAX,
    ensures
        match edit_of(rope_text(*rope), *e) {
            Ok(x) => r matches Ok(y) && edit_view(y) == x,
            Err(m) => r matches Err(f) && f@ == m,
        },
{
    let (start, end) = match &e.range {
        None => return Err(err_text("missing edit range")),
        Some(r) => (&r.0, &r.1),
    };
    let a = match edit_offset_in(rope, start) {
        Err(m) => return Err(m),
        Ok(a) => a,
    };
    let b = match edit_offset_in(rope, end) {
        Err(m) => return Err(m),
        Ok(b) => b,
    };
    if a > b {
        return Err(err_text("reversed edit range"));
    }
    match &e.new_text {
        None => Err(err_text("missing edit text")),
        Some(x) => Ok((a, b, string_from(&chars_of(x.as_str())))),
    }
}

/// An error walking the edits stays the result of the whole walk.
proof fn lemma_edits_err(t: Seq<char>, es: Seq<RawEdit>, k: int, m: int)
    requires
        0 <= k <= m <= es.len(),
        edits_of(t, es.take(k)) is Err,
    ensures
        edits_of(t, es.take(m)) == edits_of(t, es.take(k)),
    decreases m - k,
{
    if m > k {
        lemma_edits_err(t, es, k, m - 1);
        assert(es.take(m).drop_last() =~= es.take(m - 1));
    }
}

/// Checks the text edits a language server sent against the buffer text
/// `rope` and turns them into char ranges with their new text: each edit
/// needs a range, a line and column at both ends, a start line that exists
/// (one past the last line means the end of the text), a start that does
/// not pass its end, and a new text; the first failing edit gives the
/// error. Edits that share a range or overlap are refused together. The
/// edits come back from the last range to the first, so that applying them
/// in order leaves the earlier offsets valid.
pub fn validate_edits(rope: &Rope, edits: &Vec<RawEdit>) -> (r: Result<Vec<(usize, usize, String)>, String>)
    requires
        2 * rope_text(*rope).len() <= usize::MAX,
    ensures
        match edits_of(rope_text(*rope), edits@) {
            Err(m) => r matches Err(f) && f@ == m,
            Ok(c) => if edits_disjoint(c) {
                &&& r matches Ok(out)
                &&& edits_view(out@).len() == c.len()
                &&& ranges_descending(edits_view(out@))
                &&& forall|x: (int, int, Seq<char>)| edits_view(out@).contains(x) <==> c.contains(x)
            } else {
                r matches Err(f) && f@ == "overlapping edits"@
            },
        },
{
    let ghost t = rope_text(*rope);
    let mut got: Vec<(usize, usize, String)> = Vec::new();
    let mut i: usize = 0;
    assert(edits_view(got@) =~= Seq::<(int, int, Seq<char>)>::empty());
    while i < edits.len()
        invariant
            i <= edits@.len(),
            t == rope_text(*rope),
            2 * t.len() <= usize::MAX,
            edits_of(t, edits@.take(i as int)) == Ok::<Seq<(int, int, Seq<char>)>, Seq<char>>(edits_view(got@)),
        decreases edits@.len() - i,
    {
        assert(edits@.take(i + 1).drop_last() =~= edits@.take(i as int));
        match edit_in(rope, &edits[i]) {
            Err(m) => {
                proof {
                    lemma_edits_err(t, edits@, i + 1, edits@.len() as int);
                    assert(edits@.take(edits@.len() as int) =~= edits@);
                }
                return Err(m);
            },
            Ok(x) => {
                let ghost before = got@;
                got.push(x);
                assert(edits_view(got@) =~= edits_view(before).push(edit_view(x)));
            },
        }
        i += 1;
    }
    assert(edits@.take(edits@.len() as int) =~= edits@);
    let ghost c = edits_view(got@);
    let n = got.len();
    let mut p: usize = 0;
    while p < n
        invariant
            edits_of(rope_text(*rope), edits@) == Ok::<Seq<(int, int, Seq<char>)>, Seq<char>>(c),
            n == got@.len(),
            c == edits_view(got@),
            p <= n,
            forall|a: int, b: int| 0 <= a < p && 0 <= b < n && a != b ==> #[trigger] apart(c, a, b),
        decreases n - p,
    {
        let mut q: usize = 0;
        while q < n
            invariant
                edits_of(rope_text(*rope), edits@) == Ok::<Seq<(int, int, Seq<char>)>, Seq<char>>(c),
                n == got@.len(),
                c == edits_view(got@),
                p < n,
                q <= n,
                forall|a: int, b: int| 0 <= a < p && 0 <= b < n && a != b ==> #[trigger] apart(c, a, b),
                forall|b: int| 0 <= b < q && b != p ==> #[trigger] apart(c, p as int, b),
            decreases n - q,
        {
            if p != q {
                let ap = got[p].0;
                let bp = got[p].1;
                let aq = got[q].0;
                let bq = got[q].1;
                let same = ap == aq && bp == bq;
                let first = aq < ap || (aq == ap && bq < bp);
                if same || (first && bq > ap) {
                    assert(!apart(c, p as int, q as int));
                    assert(!edits_disjoint(c));
                    return Err(err_text("overlapping edits"));
                }
                assert(apart(c, p as int, q as int));
            }
            q += 1;
        }
        p += 1;
    }
    assert(edits_disjoint(c));
    let mut sorted: Vec<(usize, usize, String)> = Vec::new();
    assert(c.subrange(n as int, n as int) =~= Seq::<(int, int, Seq<char>)>::empty());
    assert(edits_view(sorted@) =~= Seq::<(int, int, Seq<char>)>::empty());
    while got.len() > 0
        invariant
            edits_of(rope_text(*rope), edits@) == Ok::<Seq<(int, int, Seq<char>)>, Seq<char>>(c),
            got@.len() <= n,
            n == c.len(),
            edits_disjoint(c),
            edits_view(got@) == c.take(got@.len() as int),
            edits_view(sorted@).len() + got@.len() == n,
            ranges_descending(edits_view(sorted@)),
            forall|x: (int, int, Seq<char>)|
                edits_view(sorted@).contains(x) <==> c.subrange(got@.len() as int, n as int).contains(x),
        decreases got@.len(),
    {
        let ghost m = got@.len() - 1;
        let ghost rest = got@;
        let x = got.pop().unwrap();
        let ghost xv = edit_view(x);
        let ghost sv = edits_view(sorted@);
        assert(edits_view(rest)[m] == edit_view(rest[m]));
        assert(xv == c[m]);
        assert(edits_view(got@) =~= c.take(m));
        let mut k: usize = 0;
        while k < sorted.len() && !(sorted[k].0 < x.0 || (sorted[k].0 == x.0 && sorted[k].1 < x.1))
            invariant
                k <= sorted@.len(),
                sv == edits_view(sorted@),
                xv == edit_view(x),
                forall|a: int| 0 <= a < k ==> !range_before(#[trigger] sv[a], xv),
            decreases sorted@.len() - k,
        {
            assert(sv[k as int] == edit_view(sorted@[k as int]));
            k += 1;
        }
        proof {
            if k < sorted@.len() {
                assert(sv[k as int] == edit_view(sorted@[k as int]));
            }
            assert forall|a: int| 0 <= a < sv.len() implies #[trigger] sv[a].0 != xv.0 || sv[a].1 != xv.1 by {
                assert(sv.contains(sv[a]));
                assert(c.subrange(m + 1, n as int).contains(sv[a]));
                let j = choose|j: int| 0 <= j < n - (m + 1) && #[trigger] c.subrange(m + 1, n as int)[j] == sv[a];
                assert(apart(c, m, m + 1 + j));
            }
        }
        let ghost before = sorted@;
        sorted.insert(k, x);
        proof {
            let nv = edits_view(sorted@);
            assert(nv =~= sv.insert(k as int, xv));
            assert forall|a: int, b: int| 0 <= a < b < nv.len() implies range_before(nv[b], nv[a]) by {
                if b < k {
                } else if b == k {
                    assert(!range_before(sv[a], xv));
                } else if a < k {
                    assert(!range_before(sv[a], xv));
                    assert(range_before(sv[k as int], xv));
                    if b - 1 > k {
                        assert(range_before(sv[b - 1], sv[k as int]));
                    }
                } else if a == k {
                    assert(range_before(sv[k as int], xv));
                    if b - 1 > k {
                        assert(range_before(sv[b - 1], sv[k as int]));
                    }
                } else {
                    assert(range_before(sv[b - 1], sv[a - 1]));
                }
            }
            assert forall|y: (int, int, Seq<char>)| nv.contains(y) <==> c.subrange(m, n as int).contains(y) by {
                if nv.contains(y) {
                    let i1 = choose|i1: int| 0 <= i1 < nv.len() && #[trigger] nv[i1] == y;
                    if i1 == k {
                        assert(c.subrange(m, n as int)[0] == y);
                    } else {
                        let i2 = if i1 < k { i1 } else { i1 - 1 };
                        assert(sv[i2] == y);
                        assert(sv.contains(y));
                        let j = choose|j: int| 0 <= j < n - (m + 1) && #[trigger] c.subrange(m + 1, n as int)[j] == y;
                        assert(c.subrange(m, n as int)[j + 1] == y);
                    }
                }
                if c.subrange(m, n as int).contains(y) {
                    let j = choose|j: int| 0 <= j < n - m && #[trigger] c.subrange(m, n as int)[j] == y;
                    if j == 0 {
                        assert(nv[k as int] == y);
                    } else {
                        assert(c.subrange(m + 1, n as int)[j - 1] == y);
                        assert(sv.contains(y));
                        let i2 = choose|i2: int| 0 <= i2 < sv.len() && #[trigger] sv[i2] == y;
                        if i2 < k {
                            assert(nv[i2] == y);
                        } else {
                            assert(nv[i2 + 1] == y);
                        }
                    }
                }
            }
        }
    }
    assert(c.subrange(0, n as int) =~= c);
    Ok(sorted)
}


/// `validate_edits` against a buffer's text: none when the text is too
/// long for UTF-16 columns to be counted in a `usize` (more than half the
/// address space), else what `validate_edits` gives.
pub fn validate_buffer_edits(buf: &crate::buffer::Buffer, edits: &Vec<RawEdit>) -> (r: Option<Result<Vec<(usize, usize, String)>, String>>)
    ensures
        (2 * rope_text(buf.rope).len() <= usize::MAX) == r is Some,
        r matches Some(res) ==> match edits_of(rope_text(buf.rope), edits@) {
            Err(m) => res matches Err(f) && f@ == m,
            Ok(c) => if edits_disjoint(c) {
                &&& res matches Ok(out)
                &&& edits_view(out@).len() == c.len()
                &&& ranges_descending(edits_view(out@))
                &&& forall|x: (int, int, Seq<char>)| edits_view(out@).contains(x) <==> c.contains(x)
            } else {
                res matches Err(f) && f@ == "overlapping edits"@
            },
        },
{
    let n = rope_len_chars(&buf.rope);
    if n > usize::MAX / 2 {
        return None;
    }
    Some(validate_edits(&buf.rope, edits))
}


// ---------------------------------------------------------------- replies

/// Whether two paths are equal as `PathBuf`'s `==` compares them.
pub uninterp spec fn paths_equal(a: PathBuf, b: PathBuf) -> bool;

/// `PathBuf == PathBuf`, by the name `paths_equal`: it compares the
/// paths' components, which are not visible here.
#[verifier::external_body]
fn same_path(a: &PathBuf, b: &PathBuf) -> (r: bool)
    ensures
        r == paths_equal(*a, *b),
{
    a == b
}

/// Whether a request was made for the buffer as it is now: the same file
/// and the same revision.
pub open spec fn request_current(ctx: RequestContext, path: Option<PathBuf>, seq: u64) -> bool {
    &&& path matches Some(p) && paths_equal(p, ctx.path)
    &&& ctx.revision == seq
}

impl RequestContext {
    /// Whether the request was made for the buffer with file `path` at
    /// revision `seq` (see [`request_current`]).
    pub fn is_current(&self, path: Option<&PathBuf>, seq: u64) -> (r: bool)
        ensures
            r == request_current(*self, match path { Some(p) => Some(*p), None => None }, seq),
    {
        match path {
            Some(p) => same_path(p, &self.path) && self.revision == seq,
            None => false,
        }
    }
}

/// The requests still waiting that were made for another file or an
/// older revision than the buffer's (`path`, `seq`): their ids and
/// clients, in the order given, for cancelling.
pub open spec fn stale_spec(pending: Seq<(u64, RequestContext)>, path: Option<PathBuf>, seq: u64) -> Seq<(u64, Seq<char>)>
    decreases pending.len(),
{
    if pending.len() == 0 {
        seq![]
    } else {
        let rest = stale_spec(pending.drop_last(), path, seq);
        let (id, ctx) = pending.last();
        if request_current(ctx, path, seq) { rest } else { rest.push((id, ctx.client@)) }
    }
}

/// The requests to cancel because the buffer moved on (see [`stale_spec`]).
pub fn stale_requests(pending: &Vec<(u64, RequestContext)>, path: Option<&PathBuf>, seq: u64) -> (r: Vec<(u64, String)>)
    ensures
        r@.map_values(|e: (u64, String)| (e.0, e.1@)) == stale_spec(pending@, match path { Some(p) => Some(*p), None => None }, seq),
{
    let ghost pv: Option<PathBuf> = match path { Some(p) => Some(*p), None => None };
    let mut out: Vec<(u64, String)> = Vec::new();
    let mut i: usize = 0;
    while i < pending.len()
        invariant
            i <= pending@.len(),
            pv == (match path { Some(p) => Some(*p), None => None }),
            out@.map_values(|e: (u64, String)| (e.0, e.1@)) == stale_spec(pending@.subrange(0, i as int), pv, seq),
        decreases pending@.len() - i,
    {
        proof {
            assert(pending@.subrange(0, i + 1).drop_last() =~= pending@.subrange(0, i as int));
            assert(pending@.subrange(0, i + 1).last() == pending@[i as int]);
        }
        let (id, ctx) = &pending[i];
        if !ctx.is_current(path, seq) {
            let client = string_from(&chars_of(ctx.client.as_str()));
            let ghost before = out@;
            out.push((*id, client));
            proof {
                assert(out@.map_values(|e: (u64, String)| (e.0, e.1@))
                    =~= before.map_values(|e: (u64, String)| (e.0, e.1@)).push((*id, ctx.client@)));
            }
        }
        i += 1;
    }
    proof {
        assert(pending@.subrange(0, pending@.len() as int) =~= pending@);
    }
    out
}

/// What becomes of a language server's reply.
pub enum ReplyPlan {
    /// No request is waiting under its id (cancelled or answered): drop it.
    Drop,
    /// The server reported an error: show its message.
    ShowError(String),
    /// The buffer moved on since the request: say the reply was ignored.
    Stale,
    /// Hand the result to the request's handler.
    Deliver,
}

/// What becomes of a reply to the request `ctx` (none when nothing waits
/// under its id) with server error `error`, for the buffer with file
/// `path` at revision `seq`.
pub open spec fn reply_spec(ctx: Option<RequestContext>, error: Option<Seq<char>>, path: Option<PathBuf>, seq: u64) -> ReplyPlanV {
    match ctx {
        None => ReplyPlanV::Drop,
        Some(c) => match error {
            Some(e) => ReplyPlanV::ShowError(e),
            None => if request_current(c, path, seq) { ReplyPlanV::Deliver } else { ReplyPlanV::Stale },
        },
    }
}

/// The model of a [`ReplyPlan`].
pub enum ReplyPlanV {
    Drop,
    ShowError(Seq<char>),
    Stale,
    Deliver,
}

pub open spec fn reply_view(p: ReplyPlan) -> ReplyPlanV {
    match p {
        ReplyPlan::Drop => ReplyPlanV::Drop,
        ReplyPlan::ShowError(e) => ReplyPlanV::ShowError(e@),
        ReplyPlan::Stale => ReplyPlanV::Stale,
        ReplyPlan::Deliver => ReplyPlanV::Deliver,
    }
}

/// Decides what becomes of a language server's reply (see [`reply_spec`]).
pub fn plan_reply(ctx: Option<&RequestContext>, error: Option<String>, path: Option<&PathBuf>, seq: u64) -> (r: ReplyPlan)
    ensures
        reply_view(r) == reply_spec(
            match ctx { Some(c) => Some(*c), None => None },
            match error { Some(e) => Some(e@), None => None },
            match path { Some(p) => Some(*p), None => None },
            seq,
        ),
{
    match ctx {
        None => ReplyPlan::Drop,
        Some(c) => match error {
            Some(e) => ReplyPlan::ShowError(e),
            None => if c.is_current(path, seq) { ReplyPlan::Deliver } else { ReplyPlan::Stale },
        },
    }
}


/// The edits `validate_edits` gives back run from the last range to the
/// first without overlapping: each ends where the one before it starts,
/// or earlier, which is the order `Buffer::apply_edits` takes them in.
pub proof fn law_validated_edits_apply_in_order(c: Seq<(int, int, Seq<char>)>, out: Seq<(int, int, Seq<char>)>)
    requires
        edits_disjoint(c),
        ranges_descending(out),
        forall|x: (int, int, Seq<char>)| out.contains(x) <==> c.contains(x),
    ensures
        forall|i: int, j: int| 0 <= i < j < out.len() ==> (#[trigger] out[j]).1 <= (#[trigger] out[i]).0,
{
    assert forall|i: int, j: int| 0 <= i < j < out.len() implies (#[trigger] out[j]).1 <= (#[trigger] out[i]).0 by {
        assert(range_before(out[j], out[i]));
        assert(out.contains(out[i]));
        assert(out.contains(out[j]));
        let p = choose|p: int| 0 <= p < c.len() && c[p] == out[i];
        let q = choose|q: int| 0 <= q < c.len() && c[q] == out[j];
        assert(p != q);
        assert(apart(c, p, q));
    }
}


// ---------------------------------------------------------------- requests

/// The parameters a language request carries besides the document.
#[derive(Debug, Clone, Copy, PartialEq, Eq, Structural)]
pub enum RequestShape {
    /// The cursor position.
    Position,
    /// The document alone.
    Document,
    /// The query typed (workspace symbols; no document).
    Query,
    /// The cursor position, declarations included.
    References,
    /// The whole document's range.
    WholeRange,
    /// The buffer's tab size and whether it indents with spaces.
    Format,
    /// The cursor position and the new name.
    Rename,
    /// The cursor position as a range, with the diagnostics under it.
    Actions,
    /// The whole document's range, for the organize-imports action only.
    OrganizeImports,
}

/// The method a kind of language request is sent as, the server
/// capability that must be on for a server to take it, and what it
/// carries; none for a kind the editor does not send.
pub open spec fn request_spec(kind: Seq<char>) -> Option<(Seq<char>, Seq<char>, RequestShape)> {
    if kind == "hover"@ {
        Some(("textDocument/hover"@, "hoverProvider"@, RequestShape::Position))
    } else if kind == "definition"@ {
        Some(("textDocument/definition"@, "definitionProvider"@, RequestShape::Position))
    } else if kind == "typeDefinition"@ {
        Some(("textDocument/typeDefinition"@, "typeDefinitionProvider"@, RequestShape::Position))
    } else if kind == "implementation"@ {
        Some(("textDocument/implementation"@, "implementationProvider"@, RequestShape::Position))
    } else if kind == "declaration"@ {
        Some(("textDocument/declaration"@, "declarationProvider"@, RequestShape::Position))
    } else if kind == "workspaceSymbols"@ {
        Some(("workspace/symbol"@, "workspaceSymbolProvider"@, RequestShape::Query))
    } else if kind == "references"@ {
        Some(("textDocument/references"@, "referencesProvider"@, RequestShape::References))
    } else if kind == "outline"@ {
        Some(("textDocument/documentSymbol"@, "documentSymbolProvider"@, RequestShape::Document))
    } else if kind == "documentLinks"@ {
        Some(("textDocument/documentLink"@, "documentLinkProvider"@, RequestShape::Document))
    } else if kind == "codeLens"@ {
        Some(("textDocument/codeLens"@, "codeLensProvider"@, RequestShape::Document))
    } else if kind == "inlayHints"@ {
        Some(("textDocument/inlayHint"@, "inlayHintProvider"@, RequestShape::WholeRange))
    } else if kind == "documentHighlight"@ {
        Some(("textDocument/documentHighlight"@, "documentHighlightProvider"@, RequestShape::Position))
    } else if kind == "format"@ {
        Some(("textDocument/formatting"@, "documentFormattingProvider"@, RequestShape::Format))
    } else if kind == "rename"@ {
        Some(("textDocument/rename"@, "renameProvider"@, RequestShape::Rename))
    } else if kind == "actions"@ {
        Some(("textDocument/codeAction"@, "codeActionProvider"@, RequestShape::Actions))
    } else if kind == "organizeImports"@ {
        Some(("textDocument/codeAction"@, "codeActionProvider"@, RequestShape::OrganizeImports))
    } else if kind == "signature"@ {
        Some(("textDocument/signatureHelp"@, "signatureHelpProvider"@, RequestShape::Position))
    } else {
        None
    }
}

fn lit_is(k: &Vec<char>, lit: &str) -> (r: bool)
    ensures
        r == (k@ == lit@),
{
    crate::text::chars_eq(k, &chars_of(lit))
}

/// What a kind of language request is sent as (see [`request_spec`]).
pub fn request_for(kind: &str) -> (r: Option<(&'static str, &'static str, RequestShape)>)
    ensures
        match (r, request_spec(kind@)) {
            (Some(a), Some(b)) => a.0@ == b.0 && a.1@ == b.1 && a.2 == b.2,
            (None, None) => true,
            _ => false,
        },
{
    let kc = chars_of(kind);
    if lit_is(&kc, "hover") {
        Some(("textDocument/hover", "hoverProvider", RequestShape::Position))
    } else if lit_is(&kc, "definition") {
        Some(("textDocument/definition", "definitionProvider", RequestShape::Position))
    } else if lit_is(&kc, "typeDefinition") {
        Some(("textDocument/typeDefinition", "typeDefinitionProvider", RequestShape::Position))
    } else if lit_is(&kc, "implementation") {
        Some(("textDocument/implementation", "implementationProvider", RequestShape::Position))
    } else if lit_is(&kc, "declaration") {
        Some(("textDocument/declaration", "declarationProvider", RequestShape::Position))
    } else if lit_is(&kc, "workspaceSymbols") {
        Some(("workspace/symbol", "workspaceSymbolProvider", RequestShape::Query))
    } else if lit_is(&kc, "references") {
        Some(("textDocument/references", "referencesProvider", RequestShape::References))
    } else if lit_is(&kc, "outline") {
        Some(("textDocument/documentSymbol", "documentSymbolProvider", RequestShape::Document))
    } else if lit_is(&kc, "documentLinks") {
        Some(("textDocument/documentLink", "documentLinkProvider", RequestShape::Document))
    } else if lit_is(&kc, "codeLens") {
        Some(("textDocument/codeLens", "codeLensProvider", RequestShape::Document))
    } else if lit_is(&kc, "inlayHints") {
        Some(("textDocument/inlayHint", "inlayHintProvider", RequestShape::WholeRange))
    } else if lit_is(&kc, "documentHighlight") {
        Some(("textDocument/documentHighlight", "documentHighlightProvider", RequestShape::Position))
    } else if lit_is(&kc, "format") {
        Some(("textDocument/formatting", "documentFormattingProvider", RequestShape::Format))
    } else if lit_is(&kc, "rename") {
        Some(("textDocument/rename", "renameProvider", RequestShape::Rename))
    } else if lit_is(&kc, "actions") {
        Some(("textDocument/codeAction", "codeActionProvider", RequestShape::Actions))
    } else if lit_is(&kc, "organizeImports") {
        Some(("textDocument/codeAction", "codeActionProvider", RequestShape::OrganizeImports))
    } else if lit_is(&kc, "signature") {
        Some(("textDocument/signatureHelp", "signatureHelpProvider", RequestShape::Position))
    } else {
        None
    }
}

/// Whether the position `(line, col)` lies in the range of `d`, both
/// ends included, comparing line first, then column.
pub open spec fn covers(d: crate::lsp::Diagnostic, line: int, col: int) -> bool {
    &&& (d.line < line || (d.line == line && d.col <= col))
    &&& (line < d.end_line || (line == d.end_line && col <= d.end_col))
}

/// The positions in `diags` of the diagnostics whose range holds the
/// position `(line, col)`, in order.
pub open spec fn covering_spec(diags: Seq<crate::lsp::Diagnostic>, line: int, col: int) -> Seq<int>
    decreases diags.len(),
{
    if diags.len() == 0 {
        seq![]
    } else {
        let r = covering_spec(diags.drop_last(), line, col);
        if covers(diags.last(), line, col) { r.push(diags.len() - 1) } else { r }
    }
}

/// The diagnostics a code-action request at `(line, col)` (col in UTF-16
/// units) sends: those whose range holds it (see [`covering_spec`]).
pub fn covering(diags: &Vec<crate::lsp::Diagnostic>, line: usize, col: usize) -> (r: Vec<usize>)
    ensures
        r@.map_values(|k: usize| k as int) == covering_spec(diags@, line as int, col as int),
{
    let mut out: Vec<usize> = Vec::new();
    let mut i: usize = 0;
    while i < diags.len()
        invariant
            i <= diags@.len(),
            out@.map_values(|k: usize| k as int) == covering_spec(diags@.take(i as int), line as int, col as int),
        decreases diags@.len() - i,
    {
        proof {
            assert(diags@.take(i + 1).drop_last() =~= diags@.take(i as int));
            assert(diags@.take(i + 1).last() == diags@[i as int]);
        }
        let d = &diags[i];
        let after_start = d.line < line || (d.line == line && d.col <= col);
        let before_end = line < d.end_line || (line == d.end_line && col <= d.end_col);
        if after_start && before_end {
            let ghost before = out@;
            out.push(i);
            proof {
                assert(out@.map_values(|k: usize| k as int) =~= before.map_values(|k: usize| k as int).push(i as int));
            }
        }
        i += 1;
    }
    proof {
        assert(diags@.take(diags@.len() as int) =~= diags@);
    }
    out
}


// ---------------------------------------------------------------- signature help

/// What `serde_json::Value::as_array` gives for a JSON value: the elements
/// of an array, none for another kind of value.
pub uninterp spec fn json_elements(v: serde_json::Value) -> Option<Seq<serde_json::Value>>;

/// `serde_json::Value::as_array`, by the name `json_elements`: which values
/// are arrays is not visible here, so nothing more is stated.
#[verifier::external_body]
pub(crate) fn json_array(v: &serde_json::Value) -> (r: Option<&Vec<serde_json::Value>>)
    ensures
        match r {
            Some(a) => json_elements(*v) == Some(a@),
            None => json_elements(*v) is None,
        },
{
    v.as_array()
}

/// Texts joined with `\n` between them.
pub open spec fn newline_joined(ls: Seq<Seq<char>>) -> Seq<char>
    decreases ls.len(),
{
    if ls.len() == 0 {
        seq![]
    } else if ls.len() == 1 {
        ls[0]
    } else {
        newline_joined(ls.drop_last()) + seq!['\n'] + ls.last()
    }
}

/// The `label` texts of signature entries, in order; entries without a
/// text label are skipped.
pub open spec fn labels_of(es: Seq<serde_json::Value>) -> Seq<Seq<char>>
    decreases es.len(),
{
    if es.len() == 0 {
        seq![]
    } else {
        let r = labels_of(es.drop_last());
        match crate::completion::json_member(es.last(), "label"@) {
            Some(l) => match crate::completion::json_text(l) {
                Some(t) => r.push(t),
                None => r,
            },
            None => r,
        }
    }
}

/// The text shown for a signature-help reply: the labels of its
/// `signatures` array, one per line; empty when there is none.
pub open spec fn signature_text_spec(v: serde_json::Value) -> Seq<char> {
    match crate::completion::json_member(v, "signatures"@) {
        Some(s) => match json_elements(s) {
            Some(es) => newline_joined(labels_of(es)),
            None => seq![],
        },
        None => seq![],
    }
}

/// The text shown for a signature-help reply (see [`signature_text_spec`]).
pub fn signature_text(v: &serde_json::Value) -> (r: String)
    ensures
        r@ == signature_text_spec(*v),
{
    let sigs = match crate::completion::json_get(v, "signatures") {
        Some(s) => s,
        None => return String::new(),
    };
    let es = match json_array(sigs) {
        Some(a) => a,
        None => return String::new(),
    };
    let ghost ev = es@;
    let mut out: Vec<char> = Vec::new();
    let mut count: usize = 0;
    let mut i: usize = 0;
    proof {
        assert(ev.take(0) =~= Seq::<serde_json::Value>::empty());
    }
    while i < es.len()
        invariant
            i <= ev.len(),
            ev == es@,
            out@ == newline_joined(labels_of(ev.take(i as int))),
            (count == 0) == (labels_of(ev.take(i as int)).len() == 0),
        decreases ev.len() - i,
    {
        proof {
            assert(ev.take(i + 1).drop_last() =~= ev.take(i as int));
            assert(ev.take(i + 1).last() == ev[i as int]);
        }
        let label = match crate::completion::json_get(&es[i], "label") {
            Some(l) => crate::completion::json_str(l),
            None => None,
        };
        if let Some(t) = label {
            let ghost before = labels_of(ev.take(i as int));
            if count > 0 {
                out.push('\n');
            }
            let tc = chars_of(t.as_str());
            let ghost o0 = out@;
            let mut k: usize = 0;
            while k < tc.len()
                invariant
                    k <= tc@.len(),
                    out@ == o0 + tc@.subrange(0, k as int),
                decreases tc@.len() - k,
            {
                out.push(tc[k]);
                proof {
                    assert(tc@.subrange(0, k + 1) =~= tc@.subrange(0, k as int).push(tc@[k as int]));
                }
                k += 1;
            }
            proof {
                assert(tc@.subrange(0, tc@.len() as int) =~= tc@);
                let now = before.push(t@);
                assert(now.drop_last() =~= before);
                if before.len() == 0 {
                    assert(out@ =~= t@);
                } else {
                    assert(out@ =~= newline_joined(before) + seq!['\n'] + t@);
                }
            }
            count = if count < usize::MAX { count + 1 } else { count };
        }
        i += 1;
    }
    proof {
        assert(ev.take(ev.len() as int) =~= ev);
    }
    string_from(&out)
}

// ---------------------------------------------------------------- request parameters

/// A position as a language server reads it: a 0-based line and a column
/// in UTF-16 units.
pub struct LspPos {
    pub line: usize,
    pub character: usize,
}

/// What a language request carries beside the document, as plain values.
pub enum RequestParams {
    /// The cursor position.
    Position(LspPos),
    /// The query for workspace symbols.
    Query(String),
    /// The cursor position, declarations included.
    References(LspPos),
    /// The document alone.
    Document,
    /// The range from the document's start to this end.
    WholeRange(LspPos),
    /// Formatting options: the tab size and whether to indent with spaces.
    Format { tab_size: usize, insert_spaces: bool },
    /// The cursor position and the new name.
    Rename { position: LspPos, new_name: String },
    /// The cursor position as an empty range, and the diagnostics (by
    /// index) whose range holds it.
    Actions { position: LspPos, diagnostics: Vec<usize> },
    /// The range from the document's start to this end, for the
    /// organize-imports action only.
    OrganizeImports(LspPos),
}

/// The model of a [`RequestParams`].
pub enum RequestParamsV {
    Position((int, int)),
    Query(Seq<char>),
    References((int, int)),
    Document,
    WholeRange((int, int)),
    Format(usize, bool),
    Rename((int, int), Seq<char>),
    Actions((int, int), Seq<int>),
    OrganizeImports((int, int)),
}

/// An [`LspPos`] as `(line, character)`.
pub open spec fn pos_view(p: LspPos) -> (int, int) {
    (p.line as int, p.character as int)
}

/// A [`RequestParams`] by its plain values.
pub open spec fn params_view(p: RequestParams) -> RequestParamsV {
    match p {
        RequestParams::Position(q) => RequestParamsV::Position(pos_view(q)),
        RequestParams::Query(q) => RequestParamsV::Query(q@),
        RequestParams::References(q) => RequestParamsV::References(pos_view(q)),
        RequestParams::Document => RequestParamsV::Document,
        RequestParams::WholeRange(q) => RequestParamsV::WholeRange(pos_view(q)),
        RequestParams::Format { tab_size, insert_spaces } => RequestParamsV::Format(tab_size, insert_spaces),
        RequestParams::Rename { position, new_name } => RequestParamsV::Rename(pos_view(position), new_name@),
        RequestParams::Actions { position, diagnostics } => RequestParamsV::Actions(pos_view(position), diagnostics@.map_values(|k: usize| k as int)),
        RequestParams::OrganizeImports(q) => RequestParamsV::OrganizeImports(pos_view(q)),
    }
}

/// Where `(line, col)` of text `t` is for a language server: the same
/// line, the column counted in UTF-16 units of the line's text.
pub open spec fn lsp_pos(t: Seq<char>, line: int, col: int) -> (int, int) {
    (line, utf16_prefix(crate::buffer::line_content(t, line), col))
}

/// The end of text `t` for a language server: its last line as ropey
/// counts lines, after that line's last char.
pub open spec fn doc_end(t: Seq<char>) -> (int, int) {
    let last = if num_lines(t) > 0 { num_lines(t) - 1 } else { 0 };
    lsp_pos(t, last, crate::buffer::line_content(t, last).len() as int)
}

/// What a request of shape `shape` carries for buffer `b`, with the
/// command's argument `arg` and the buffer's diagnostics `diags`: the
/// cursor position, the query (empty without one), the document's whole
/// range, the buffer's indent options, the new name (a rename without one
/// is refused with its usage), or the diagnostics under the cursor.
pub open spec fn params_spec(b: crate::buffer::Buffer, shape: RequestShape, arg: Option<Seq<char>>, diags: Seq<crate::lsp::Diagnostic>) -> Result<RequestParamsV, Seq<char>> {
    let pos = lsp_pos(b.text(), b.cursor_line as int, b.cursor_col as int);
    match shape {
        RequestShape::Position => Ok(RequestParamsV::Position(pos)),
        RequestShape::Query => Ok(RequestParamsV::Query(match arg { Some(a) => a, None => Seq::empty() })),
        RequestShape::References => Ok(RequestParamsV::References(pos)),
        RequestShape::Document => Ok(RequestParamsV::Document),
        RequestShape::WholeRange => Ok(RequestParamsV::WholeRange(doc_end(b.text()))),
        RequestShape::Format => Ok(RequestParamsV::Format(b.tabstop, b.expandtab)),
        RequestShape::Rename => match arg {
            Some(a) => if a.len() > 0 { Ok(RequestParamsV::Rename(pos, a)) } else { Err("Usage: :rename new_name"@) },
            None => Err("Usage: :rename new_name"@),
        },
        RequestShape::Actions => Ok(RequestParamsV::Actions(pos, covering_spec(diags, pos.0, pos.1))),
        RequestShape::OrganizeImports => Ok(RequestParamsV::OrganizeImports(doc_end(b.text()))),
    }
}

/// The position `(line, col)` of the buffer for a language server (see
/// [`lsp_pos`]).
fn buffer_lsp_pos(b: &crate::buffer::Buffer, line: usize, col: usize) -> (r: LspPos)
    requires
        2 * b.text().len() <= usize::MAX,
    ensures
        pos_view(r) == lsp_pos(b.text(), line as int, col as int),
{
    let t = b.line_text(line);
    proof {
        let tx = b.text();
        if 0 <= line < num_lines(tx) {
            crate::buffer::lemma_content_fits(tx, line as int);
            lemma_line_start(tx, line as int);
        }
    }
    LspPos { line, character: utf16_col(t.as_str(), col) }
}

/// What a language request of shape `shape` carries (see [`params_spec`]).
pub fn request_params(b: &crate::buffer::Buffer, shape: RequestShape, arg: Option<&str>, diags: &Vec<crate::lsp::Diagnostic>) -> (r: Result<RequestParams, String>)
    requires
        2 * b.text().len() <= usize::MAX,
    ensures
        match params_spec(*b, shape, match arg { Some(a) => Some(a@), None => None }, diags@) {
            Ok(p) => r matches Ok(x) && params_view(x) == p,
            Err(m) => r matches Err(e) && e@ == m,
        },
{
    let pos = buffer_lsp_pos(b, b.cursor_line, b.cursor_col);
    match shape {
        RequestShape::Position => Ok(RequestParams::Position(pos)),
        RequestShape::Query => Ok(RequestParams::Query(match arg {
            Some(a) => string_from(&chars_of(a)),
            None => String::new(),
        })),
        RequestShape::References => Ok(RequestParams::References(pos)),
        RequestShape::Document => Ok(RequestParams::Document),
        RequestShape::WholeRange | RequestShape::OrganizeImports => {
            let n = rope_len_lines(&b.rope);
            let last = if n > 0 { n - 1 } else { 0 };
            let len = b.line_len(last);
            let end = buffer_lsp_pos(b, last, len);
            match shape {
                RequestShape::WholeRange => Ok(RequestParams::WholeRange(end)),
                _ => Ok(RequestParams::OrganizeImports(end)),
            }
        },
        RequestShape::Format => Ok(RequestParams::Format { tab_size: b.tabstop, insert_spaces: b.expandtab }),
        RequestShape::Rename => {
            let usage = string_from(&chars_of("Usage: :rename new_name"));
            match arg {
                Some(a) => {
                    let v = chars_of(a);
                    if v.len() > 0 {
                        Ok(RequestParams::Rename { position: pos, new_name: string_from(&v) })
                    } else {
                        Err(usage)
                    }
                },
                None => Err(usage),
            }
        },
        RequestShape::Actions => {
            let ds = covering(diags, pos.line, pos.character);
            Ok(RequestParams::Actions { position: pos, diagnostics: ds })
        },
    }
}

} // verus!
