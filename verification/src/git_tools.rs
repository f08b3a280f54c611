//! Parsers for the text that `git` prints: remote URLs, hunk headers, blame
//! lines, `status --porcelain -z` records and command outcomes. Running
//! `git` itself is the caller's business; these functions only read what it
//! printed.
use vstd::prelude::*;
use crate::text::{byte_boundary, byte_to_char, chars_of, copy_range, extend_chars, find_char, is_whitespace, is_ws, line_spans, line_spans_from, matches_at, next_char, parse_usize_at, parse_usize_spec, skip_ws_back_exec, split_spans, split_spans_from, starts_at, string_from, string_of, strip_all_lead, strip_all_lead_exec, strip_all_suffix, strip_all_suffix_exec, strip_prefix, trim, trim_bounds, trim_end, trim_str, word_spans, word_spans_from};

verus! {

// ---------------------------------------------------------------- remotes

/// The remote URL with surrounding whitespace, every trailing `.git` and
/// then every trailing `/` removed.
pub open spec fn remote_core(url: Seq<char>) -> Seq<char> {
    strip_all_suffix(strip_all_suffix(trim(url), ".git"@), "/"@)
}

/// What is left of a github.com remote after its host prefix: SSH form,
/// `ssh://` long form, HTTPS or HTTP, tried in that order.
pub open spec fn github_rest(u: Seq<char>) -> Option<Seq<char>> {
    if strip_prefix(u, "git@github.com:"@) is Some {
        strip_prefix(u, "git@github.com:"@)
    } else if strip_prefix(u, "ssh://git@github.com/"@) is Some {
        strip_prefix(u, "ssh://git@github.com/"@)
    } else if strip_prefix(u, "https://github.com/"@) is Some {
        strip_prefix(u, "https://github.com/"@)
    } else {
        strip_prefix(u, "http://github.com/"@)
    }
}

/// `(owner, repo)` of a github.com remote URL: the text after the host,
/// split at its first `/`, both halves non-empty.
pub open spec fn github_remote(url: Seq<char>) -> Option<(Seq<char>, Seq<char>)> {
    match github_rest(remote_core(url)) {
        Some(rest) => {
            let i = next_char(rest, '/', 0, rest.len() as int);
            if i < rest.len() && i > 0 && i + 1 < rest.len() {
                Some((rest.subrange(0, i), rest.subrange(i + 1, rest.len() as int)))
            } else {
                None
            }
        },
        None => None,
    }
}

/// Parses a GitHub remote URL -- SSH (`git@github.com:owner/repo.git`),
/// HTTPS/HTTP (`https://github.com/owner/repo.git`) or the `ssh://` long
/// form, trailing `.git` optional -- into `(owner, repo)`. `None` for
/// anything that isn't a github.com remote.
pub fn parse_github_remote(url: &str) -> (r: Option<(String, String)>)
    ensures
        match github_remote(url@) {
            Some((o, p)) => r matches Some((ro, rp)) && ro@ == o && rp@ == p,
            None => r is None,
        },
{
    let s = chars_of(url);
    let (a, b) = trim_bounds(&s, 0, s.len());
    assert(s@.subrange(0, s@.len() as int) == s@);
    let git = chars_of(".git");
    let slash = chars_of("/");
    let b1 = strip_all_suffix_exec(&s, a, b, &git);
    let b2 = strip_all_suffix_exec(&s, a, b1, &slash);
    proof {
        assert(s@.subrange(a as int, b1 as int).subrange(0, b2 - a) =~= s@.subrange(
            a as int,
            b2 as int,
        ));
    }
    let u = copy_range(&s, a, b2);
    proof {
        let t = s@.subrange(a as int, b as int);
        assert(strip_all_suffix(t, git@) == s@.subrange(a as int, b1 as int));
        lemma_strip_all_suffix_sub(s@, a as int, b1 as int, b2 as int, slash@);
        assert(u@ == remote_core(url@));
    }
    let p1 = chars_of("git@github.com:");
    let p2 = chars_of("ssh://git@github.com/");
    let p3 = chars_of("https://github.com/");
    let p4 = chars_of("http://github.com/");
    let start = if starts_at(&u, 0, &p1) {
        p1.len()
    } else if starts_at(&u, 0, &p2) {
        p2.len()
    } else if starts_at(&u, 0, &p3) {
        p3.len()
    } else if starts_at(&u, 0, &p4) {
        p4.len()
    } else {
        return None;
    };
    let rest = copy_range(&u, start, u.len());
    assert(github_rest(u@) == Some(rest@));
    let i = find_char(&rest, '/', 0, rest.len());
    if i < rest.len() && i > 0 && i + 1 < rest.len() {
        let owner = string_of(&rest, 0, i);
        let repo = string_of(&rest, i + 1, rest.len());
        Some((owner, repo))
    } else {
        None
    }
}

proof fn lemma_strip_all_suffix_sub(s: Seq<char>, a: int, b1: int, b2: int, p: Seq<char>)
    requires
        0 <= a <= b2 <= b1 <= s.len(),
        s.subrange(a, b2) == strip_all_suffix(s.subrange(a, b1), p),
    ensures
        s.subrange(a, b2) == strip_all_suffix(s.subrange(a, b1), p),
{
}

// ---------------------------------------------------------------- hunks

/// The first word of `ws` (spans into `h`) that starts with `+`, if any.
pub open spec fn first_plus(h: Seq<char>, ws: Seq<(int, int)>) -> Option<(int, int)>
    decreases ws.len(),
{
    if ws.len() == 0 {
        None
    } else if h[ws[0].0] == '+' {
        Some(ws[0])
    } else {
        first_plus(h, ws.drop_first())
    }
}

/// The `+`-side range `(start, count)` of a hunk header `@@ -a,b +c,d @@`
/// (first line of `detail`), before converting to 0-indexed lines: `c` and
/// `d` as parsed, `d` defaulting to 1 when the header omits it.
pub open spec fn hunk_plus(detail: Seq<char>) -> Option<(usize, usize)> {
    let ls = line_spans_from(detail, 0);
    if ls.len() == 0 {
        None
    } else {
        let h = detail.subrange(ls[0].0, ls[0].1);
        match first_plus(h, word_spans_from(h, 0)) {
            None => None,
            Some(w) => {
                let tok = h.subrange(w.0 + 1, w.1);
                let comma = next_char(tok, ',', 0, tok.len() as int);
                match parse_usize_spec(tok.subrange(0, comma)) {
                    None => None,
                    Some(start) => if comma < tok.len() {
                        match parse_usize_spec(tok.subrange(comma + 1, tok.len() as int)) {
                            None => None,
                            Some(count) => Some((start, count)),
                        }
                    } else {
                        Some((start, 1usize))
                    },
                }
            },
        }
    }
}

/// The first word of `h` that starts with `+`.
fn plus_word(h: &Vec<char>) -> (r: Option<(usize, usize)>)
    ensures
        match first_plus(h@, word_spans_from(h@, 0)) {
            None => r is None,
            Some(w) => r matches Some(x) && x.0 == w.0 && x.1 == w.1 && x.0 < x.1 <= h@.len(),
        },
{
    let ws = word_spans(h);
    let mut k: usize = 0;
    let ghost all = word_spans_from(h@, 0);
    assert(all.subrange(0, all.len() as int) =~= all);
    while k < ws.len() && h[ws[k].0] != '+'
        invariant
            k <= ws@.len(),
            ws@.len() == all.len(),
            all == word_spans_from(h@, 0),
            forall|j: int|
                0 <= j < ws@.len() ==> (#[trigger] ws@[j]).0 as int == all[j].0 && ws@[j].1 as int
                    == all[j].1,
            forall|j: int| 0 <= j < ws@.len() ==> (#[trigger] ws@[j]).0 < ws@[j].1 <= h@.len(),
            first_plus(h@, all.subrange(k as int, all.len() as int)) == first_plus(h@, all),
        decreases ws@.len() - k,
    {
        assert(all.subrange(k as int, all.len() as int).drop_first() =~= all.subrange(
            k + 1,
            all.len() as int,
        ));
        k += 1;
    }
    if k >= ws.len() {
        assert(first_plus(h@, all.subrange(k as int, all.len() as int)) == None::<(int, int)>);
        return None;
    }
    assert(first_plus(h@, all) == Some(all[k as int]));
    Some((ws[k].0, ws[k].1))
}

/// `n - 1`, saturating at 0.
pub open spec fn dec_sat(n: int) -> int {
    if n > 0 {
        n - 1
    } else {
        0
    }
}

/// The inclusive 0-indexed `(start, end)` range a hunk header covers.
pub open spec fn hunk_range_spec(detail: Seq<char>) -> Option<(int, int)> {
    match hunk_plus(detail) {
        None => None,
        Some((start, count)) => Some((dec_sat(start as int), dec_sat(start as int) + dec_sat(count as int))),
    }
}

/// The `+`-side line range a hunk's `@@ -a,b +c,d @@` header covers, as an
/// inclusive 0-indexed `(start, end)` -- `d` (and `b`) are omitted from the
/// header entirely when they'd be `1`, matching plain `git diff`'s own
/// header format.
pub fn hunk_range(detail: &str) -> (r: Option<(usize, usize)>)
    requires
        hunk_range_spec(detail@) matches Some((_, e)) ==> e <= usize::MAX,
    ensures
        match hunk_range_spec(detail@) {
            Some((s, e)) => r == Some((s as usize, e as usize)),
            None => r is None,
        },
{
    let d = chars_of(detail);
    let ls = line_spans(&d);
    if ls.len() == 0 {
        return None;
    }
    let h = copy_range(&d, ls[0].0, ls[0].1);
    let (w0, w1) = match plus_word(&h) {
        None => return None,
        Some(w) => w,
    };
    let tok = copy_range(&h, w0 + 1, w1);
    let comma = find_char(&tok, ',', 0, tok.len());
    let start = match parse_usize_at(&tok, 0, comma) {
        Some(v) => v,
        None => return None,
    };
    let count = if comma < tok.len() {
        match parse_usize_at(&tok, comma + 1, tok.len()) {
            Some(v) => v,
            None => return None,
        }
    } else {
        1
    };
    let start0 = if start > 0 {
        start - 1
    } else {
        0
    };
    let cnt0 = if count > 0 {
        count - 1
    } else {
        0
    };
    Some((start0, start0 + cnt0))
}

// ---------------------------------------------------------------- blame

/// The commit hash of a blame line: its first word with leading `^`
/// (boundary-commit markers) removed; empty for a blank line.
pub open spec fn blame_hash(raw: Seq<char>) -> Seq<char> {
    let ws = word_spans_from(raw, 0);
    if ws.len() == 0 {
        seq![]
    } else {
        strip_all_lead(raw.subrange(ws[0].0, ws[0].1), '^')
    }
}

/// The last whitespace index in `s`, if any.
pub open spec fn last_ws(s: Seq<char>, hi: int) -> Option<int>
    decreases hi,
{
    if hi <= 0 {
        None
    } else if is_ws(s[hi - 1]) {
        Some(hi - 1)
    } else {
        last_ws(s, hi - 1)
    }
}

/// The parenthesised author/date metadata of a blame line with the
/// trailing line number dropped; empty when there is no `(...)`.
pub open spec fn blame_meta(raw: Seq<char>) -> Seq<char> {
    let o = next_char(raw, '(', 0, raw.len() as int);
    if o >= raw.len() {
        seq![]
    } else {
        let c = next_char(raw, ')', o, raw.len() as int);
        if c >= raw.len() {
            seq![]
        } else {
            let inner = trim_end(raw.subrange(o + 1, c));
            match last_ws(inner, inner.len() as int) {
                Some(i) => trim_end(inner.subrange(0, i)),
                None => inner,
            }
        }
    }
}

/// The blame virtual text for one line: `"<hash> <meta>"`, or just the hash.
pub open spec fn blame_line_meta_spec(raw: Seq<char>) -> Seq<char> {
    if blame_meta(raw).len() == 0 {
        blame_hash(raw)
    } else {
        blame_hash(raw) + seq![' '] + blame_meta(raw)
    }
}

/// One plain `git blame` output line (e.g. `^abc1234 (Author Name
/// 2024-01-15 10:23:45 +0000  5) content` -- a leading `^` marks a
/// boundary commit) reduced to `"<hash> <author/date, tz>"` for the
/// line-blame virtual text: the commit hash, then the parenthesized
/// metadata with its trailing line number stripped.
pub fn blame_line_meta(raw: &str) -> (out: String)
    ensures
        out@ == blame_line_meta_spec(raw@),
{
    let s = chars_of(raw);
    let ws = word_spans(&s);
    let hash: Vec<char> = if ws.len() == 0 {
        Vec::new()
    } else {
        let a = strip_all_lead_exec(&s, ws[0].0, ws[0].1, '^');
        copy_range(&s, a, ws[0].1)
    };
    assert(hash@ == blame_hash(raw@)) by {
        if ws@.len() == 0 {
            assert(hash@ =~= Seq::<char>::empty());
        }
    }
    let o = find_char(&s, '(', 0, s.len());
    let mut meta: Vec<char> = Vec::new();
    if o < s.len() {
        let c = find_char(&s, ')', o, s.len());
        if c < s.len() {
            let e = skip_ws_back_exec(&s, o + 1, c);
            let inner = copy_range(&s, o + 1, e);
            assert(inner@ == trim_end(s@.subrange(o + 1, c as int)));
            let mut j = inner.len();
            while j > 0 && !is_whitespace(inner[j - 1])
                invariant
                    j <= inner@.len(),
                    last_ws(inner@, j as int) == last_ws(inner@, inner@.len() as int),
                decreases j,
            {
                j -= 1;
            }
            if j > 0 {
                let e2 = skip_ws_back_exec(&inner, 0, j - 1);
                meta = copy_range(&inner, 0, e2);
                assert(inner@.subrange(0, j - 1).subrange(0, e2 as int) =~= meta@);
                assert(meta@ == trim_end(inner@.subrange(0, j - 1)));
            } else {
                meta = inner;
            }
        }
    }
    assert(meta@ == blame_meta(raw@));
    if meta.len() == 0 {
        string_from(&hash)
    } else {
        let mut out = hash;
        out.push(' ');
        extend_chars(&mut out, &meta);
        string_from(&out)
    }
}

// ---------------------------------------------------------------- status

/// The non-empty `\0`-separated records of `out`, as spans.
pub open spec fn records(out: Seq<char>) -> Seq<(int, int)> {
    split_spans_from(out, '\0', 0).filter(|r: (int, int)| r.1 > r.0)
}

/// The single status letter a `status --porcelain` code pair collapses to:
/// the first of `? M A D U C R` that occurs in it.
pub open spec fn status_marker(xy: Seq<char>) -> Option<char> {
    if xy.contains('?') {
        Some('?')
    } else if xy.contains('M') {
        Some('M')
    } else if xy.contains('A') {
        Some('A')
    } else if xy.contains('D') {
        Some('D')
    } else if xy.contains('U') {
        Some('U')
    } else if xy.contains('C') {
        Some('C')
    } else if xy.contains('R') {
        Some('R')
    } else {
        None
    }
}

/// The code pair (`entry.get(0..2)`) and path (`entry.get(3..)`) of a
/// porcelain record, when both byte offsets fall on char boundaries.
pub open spec fn record_parts(e: Seq<char>) -> Option<(Seq<char>, Seq<char>)> {
    match (byte_boundary(e, 2), byte_boundary(e, 3)) {
        (Some(i), Some(j)) => Some((e.subrange(0, i), e.subrange(j, e.len() as int))),
        _ => None,
    }
}

/// Whether a record is a rename/copy, which is followed by one more record
/// holding the original path.
pub open spec fn is_rename(xy: Seq<char>) -> bool {
    xy.len() > 0 && (xy[0] == 'R' || xy[0] == 'C')
}

/// The `(path, marker)` pairs of the records `rs[k..]` of `out`.
pub open spec fn status_from(out: Seq<char>, rs: Seq<(int, int)>, k: int) -> Seq<(Seq<char>, char)>
    decreases rs.len() + 1 - k,
{
    if k < 0 || k >= rs.len() {
        seq![]
    } else {
        let e = out.subrange(rs[k].0, rs[k].1);
        match record_parts(e) {
            None => status_from(out, rs, k + 1),
            Some((xy, path)) => {
                let here = match status_marker(xy) {
                    Some(m) => seq![(path, m)],
                    None => seq![],
                };
                let next = if is_rename(xy) {
                    k + 2
                } else {
                    k + 1
                };
                here + status_from(out, rs, next)
            },
        }
    }
}

/// The `(path, marker)` pairs of a `git status --porcelain=v1 -z` output,
/// in output order; paths are relative to the repository root.
pub open spec fn status_spec(out: Seq<char>) -> Seq<(Seq<char>, char)> {
    status_from(out, records(out), 0)
}

/// The non-empty records of `out`, as spans.
pub fn record_spans(s: &Vec<char>) -> (r: Vec<(usize, usize)>)
    ensures
        r@.map_values(|p: (usize, usize)| (p.0 as int, p.1 as int)) == records(s@),
        forall|k: int| 0 <= k < r@.len() ==> (#[trigger] r@[k]).0 < r@[k].1 <= s@.len(),
{
    let all = split_spans(s, '\0');
    let ghost whole = split_spans_from(s@, '\0', 0);
    let mut r: Vec<(usize, usize)> = Vec::new();
    let mut k: usize = 0;
    while k < all.len()
        invariant
            k <= all@.len(),
            all@.len() == whole.len(),
            whole == split_spans_from(s@, '\0', 0),
            forall|j: int|
                0 <= j < all@.len() ==> (#[trigger] all@[j]).0 as int == whole[j].0 && all@[j].1 as int
                    == whole[j].1,
            forall|j: int| 0 <= j < all@.len() ==> (#[trigger] all@[j]).0 <= all@[j].1 <= s@.len(),
            forall|j: int| 0 <= j < r@.len() ==> (#[trigger] r@[j]).0 < r@[j].1 <= s@.len(),
            r@.map_values(|p: (usize, usize)| (p.0 as int, p.1 as int)) == whole.subrange(
                0,
                k as int,
            ).filter(|p: (int, int)| p.1 > p.0),
        decreases all@.len() - k,
    {
        let (a, b) = all[k];
        proof {
            let f = |p: (int, int)| p.1 > p.0;
            assert(whole.subrange(0, k + 1) =~= whole.subrange(0, k as int).push(whole[k as int]));
            whole.subrange(0, k as int).lemma_filter_push(whole[k as int], f);
        }
        if b > a {
            proof {
                assert(r@.push((a, b)).map_values(|p: (usize, usize)| (p.0 as int, p.1 as int))
                    =~= r@.map_values(|p: (usize, usize)| (p.0 as int, p.1 as int)).push(
                    (a as int, b as int),
                ));
            }
            r.push((a, b));
        }
        k += 1;
    }
    assert(whole.subrange(0, all@.len() as int) =~= whole);
    r
}

/// Splits one record into its code pair and path.
pub fn split_record(e: &Vec<char>) -> (r: Option<(Vec<char>, Vec<char>)>)
    ensures
        match record_parts(e@) {
            Some((xy, path)) => r matches Some((rx, rp)) && rx@ == xy && rp@ == path,
            None => r is None,
        },
{
    let i = match byte_to_char(e, 2) {
        Some(i) => i,
        None => return None,
    };
    let j = match byte_to_char(e, 3) {
        Some(j) => j,
        None => return None,
    };
    proof {
        lemma_boundary_le(e@, 2);
        lemma_boundary_le(e@, 3);
    }
    Some((copy_range(e, 0, i), copy_range(e, j, e.len())))
}

proof fn lemma_boundary_le(s: Seq<char>, n: int)
    ensures
        byte_boundary(s, n) matches Some(k) ==> 0 <= k <= s.len(),
{
}

/// Whether `xy` holds `c`.
fn contains_char(xy: &Vec<char>, c: char) -> (r: bool)
    ensures
        r == xy@.contains(c),
{
    let mut i: usize = 0;
    while i < xy.len()
        invariant
            i <= xy@.len(),
            forall|j: int| 0 <= j < i ==> xy@[j] != c,
        decreases xy@.len() - i,
    {
        if xy[i] == c {
            assert(xy@[i as int] == c);
            return true;
        }
        i += 1;
    }
    false
}

/// The status letter for a code pair.
fn marker_of(xy: &Vec<char>) -> (r: Option<char>)
    ensures
        r == status_marker(xy@),
{
    if contains_char(xy, '?') {
        Some('?')
    } else if contains_char(xy, 'M') {
        Some('M')
    } else if contains_char(xy, 'A') {
        Some('A')
    } else if contains_char(xy, 'D') {
        Some('D')
    } else if contains_char(xy, 'U') {
        Some('U')
    } else if contains_char(xy, 'C') {
        Some('C')
    } else if contains_char(xy, 'R') {
        Some('R')
    } else {
        None
    }
}

/// The `(path, status letter)` pair of each record, in order.
fn status_pairs(out: &str) -> (r: Vec<(String, char)>)
    ensures
        r@.len() == status_spec(out@).len(),
        forall|k: int|
            0 <= k < r@.len() ==> (#[trigger] r@[k]).0@ == status_spec(out@)[k].0 && r@[k].1
                == status_spec(out@)[k].1,
{
    let s = chars_of(out);
    let rs = record_spans(&s);
    let ghost rsi = records(s@);
    let mut r: Vec<(String, char)> = Vec::new();
    let mut k: usize = 0;
    let ghost acc: Seq<(Seq<char>, char)> = seq![];
    while k < rs.len()
        invariant
            rsi == records(s@),
            rs@.map_values(|p: (usize, usize)| (p.0 as int, p.1 as int)) == rsi,
            forall|j: int| 0 <= j < rs@.len() ==> (#[trigger] rs@[j]).0 < rs@[j].1 <= s@.len(),
            s@ == out@,
            r@.len() == acc.len(),
            forall|j: int| 0 <= j < r@.len() ==> (#[trigger] r@[j]).0@ == acc[j].0 && r@[j].1 == acc[j].1,
            k <= rs@.len() + 1,
            acc + status_from(s@, rsi, k as int) == status_spec(out@),
        decreases rs@.len() + 1 - k,
    {
        assert(rsi[k as int] == (rs@[k as int].0 as int, rs@[k as int].1 as int));
        let e = copy_range(&s, rs[k].0, rs[k].1);
        let ghost k0 = k as int;
        assert(e@ == s@.subrange(rsi[k0].0, rsi[k0].1));
        match split_record(&e) {
            None => {
                assert(status_from(s@, rsi, k0) == status_from(s@, rsi, k0 + 1));
                k += 1;
            },
            Some((xy, path)) => {
                let m = marker_of(&xy);
                let ghost here: Seq<(Seq<char>, char)> = match status_marker(xy@) {
                    Some(mm) => seq![(path@, mm)],
                    None => seq![],
                };
                if let Some(mk) = m {
                    r.push((string_from(&path), mk));
                }
                let ghost next = if is_rename(xy@) {
                    k0 + 2
                } else {
                    k0 + 1
                };
                assert(status_from(s@, rsi, k0) == here + status_from(s@, rsi, next));
                proof {
                    assert(acc + here + status_from(s@, rsi, next) =~= acc + (here + status_from(
                        s@,
                        rsi,
                        next,
                    )));
                    acc = acc + here;
                }
                k += 1;
                if xy.len() > 0 && (xy[0] == 'R' || xy[0] == 'C') && k < rs.len() {
                    k += 1;
                }
                assert(status_from(s@, rsi, k as int) == status_from(s@, rsi, next));
            },
        }
    }
    assert(acc + status_from(s@, rsi, k as int) == acc);
    assert(acc =~= status_spec(out@));
    r
}

/// The paths `git status --porcelain=v1 -z --ignored` reports as ignored:
/// the records that start with `!! `, with that prefix removed.
pub open spec fn ignored_spec(out: Seq<char>) -> Seq<Seq<char>> {
    records(out).filter(|r: (int, int)| matches_at(out, r.0, "!! "@) && r.1 - r.0 >= 3).map_values(
        |r: (int, int)| out.subrange(r.0 + 3, r.1),
    )
}

/// The file tree's `.gitignore` filter: the paths (relative to the
/// repository root) that `git status --porcelain=v1 -z --ignored` reports as
/// ignored.
pub fn ignored(out: &str) -> (r: Vec<String>)
    ensures
        r@.len() == ignored_spec(out@).len(),
        forall|k: int| 0 <= k < r@.len() ==> (#[trigger] r@[k])@ == ignored_spec(out@)[k],
{
    let s = chars_of(out);
    let rs = record_spans(&s);
    let ghost rsi = records(s@);
    let ghost f = |r: (int, int)| matches_at(s@, r.0, "!! "@) && r.1 - r.0 >= 3;
    let ghost g = |r: (int, int)| s@.subrange(r.0 + 3, r.1);
    let pre = chars_of("!! ");
    let mut r: Vec<String> = Vec::new();
    let mut k: usize = 0;
    while k < rs.len()
        invariant
            k <= rs@.len(),
            rsi == records(s@),
            s@ == out@,
            pre@ == "!! "@,
            rs@.map_values(|p: (usize, usize)| (p.0 as int, p.1 as int)) == rsi,
            forall|j: int| 0 <= j < rs@.len() ==> (#[trigger] rs@[j]).0 < rs@[j].1 <= s@.len(),
            f == (|r: (int, int)| matches_at(s@, r.0, "!! "@) && r.1 - r.0 >= 3),
            g == (|r: (int, int)| s@.subrange(r.0 + 3, r.1)),
            r@.len() == rsi.subrange(0, k as int).filter(f).map_values(g).len(),
            forall|j: int|
                0 <= j < r@.len() ==> (#[trigger] r@[j])@ == rsi.subrange(0, k as int).filter(
                    f,
                ).map_values(g)[j],
        decreases rs@.len() - k,
    {
        assert(rsi[k as int] == (rs@[k as int].0 as int, rs@[k as int].1 as int));
        let (a, b) = rs[k];
        proof {
            assert(rsi.subrange(0, k + 1) =~= rsi.subrange(0, k as int).push(rsi[k as int]));
            rsi.subrange(0, k as int).lemma_filter_push(rsi[k as int], f);
        }
        if b - a >= 3 && starts_at(&s, a, &pre) {
            r.push(string_of(&s, a + 3, b));
        }
        k += 1;
    }
    assert(rsi.subrange(0, rs@.len() as int) =~= rsi);
    r
}

// ---------------------------------------------------------------- outcomes

/// The largest output a git command may print before it is refused.
pub const MAX_OUTPUT: usize = 8388608;

/// What a finished git command yields: its stderr (trimmed) when it
/// failed, an error when its stdout is larger than 8 MiB, else its stdout.
pub open spec fn run_outcome_spec(success: bool, stdout_len: usize, stdout: Seq<char>, stderr: Seq<char>) -> Result<Seq<char>, Seq<char>> {
    if !success {
        Err(trim(stderr))
    } else if stdout_len > MAX_OUTPUT {
        Err("Git output exceeds 8 MiB; narrow the operation"@)
    } else {
        Ok(stdout)
    }
}

/// Decides the result of a finished git command from its exit status, the
/// byte length of its stdout and its (lossily decoded) stdout and stderr.
pub fn run_outcome(success: bool, stdout_len: usize, stdout: String, stderr: &str) -> (r: Result<String, String>)
    ensures
        match run_outcome_spec(success, stdout_len, stdout@, stderr@) {
            Ok(o) => r matches Ok(ro) && ro@ == o,
            Err(e) => r matches Err(re) && re@ == e,
        },
{
    if !success {
        return Err(trim_str(stderr));
    }
    if stdout_len > MAX_OUTPUT {
        return Err(String::from_str("Git output exceeds 8 MiB; narrow the operation"));
    }
    Ok(stdout)
}

/// The current commit, from the output of `git rev-parse HEAD`: trimmed.
pub fn head_commit(out: &str) -> (r: String)
    ensures
        r@ == trim(out@),
{
    trim_str(out)
}

/// `origin`'s remote URL, from the output of `git remote get-url origin`:
/// trimmed.
pub fn remote_url(out: &str) -> (r: String)
    ensures
        r@ == trim(out@),
{
    trim_str(out)
}


/// The title and lines of one stash entry's diff: `out` is the output of
/// `git stash show -p --no-color <stash_ref>`, one list entry per line.
pub fn stash_show(stash_ref: &str, out: &str) -> (r: (String, Vec<String>))
    ensures
        r.0@ == "Git stash: "@ + stash_ref@,
        crate::text::views(r.1@) == crate::text::lines(out@),
{
    let mut title = chars_of("Git stash: ");
    extend_chars(&mut title, chars_of(stash_ref).as_slice());
    let ls = crate::text::line_vecs(out);
    let mut r: Vec<String> = Vec::new();
    let mut k: usize = 0;
    while k < ls.len()
        invariant
            k <= ls@.len(),
            crate::text::char_views(ls@) == crate::text::lines(out@),
            crate::text::views(r@) == crate::text::lines(out@).subrange(0, k as int),
        decreases ls@.len() - k,
    {
        let ghost before = r@;
        r.push(string_from(&ls[k]));
        assert(crate::text::views(r@) =~= crate::text::views(before).push(ls@[k as int]@));
        assert(crate::text::lines(out@).subrange(0, k + 1) =~= crate::text::lines(out@).subrange(0, k as int).push(crate::text::lines(out@)[k as int]));
        k += 1;
    }
    assert(crate::text::lines(out@).subrange(0, k as int) =~= crate::text::lines(out@));
    (string_from(&title), r)
}

/// The stash reference an entry line of `git stash list` names: what comes
/// before its first `:`, trimmed (`stash@{0}` for `stash@{0}: WIP on main`).
pub open spec fn stash_ref_of(line: Seq<char>) -> Seq<char> {
    crate::text::trim(line.subrange(0, crate::text::next_char(line, ':', 0, line.len() as int)))
}

/// The entries of `:gitstash`: `out` is the output of `git stash list`;
/// each of its lines gives one entry, the line itself with the stash
/// reference it names (whose diff Enter shows).
pub fn stash_list(out: &str) -> (r: Vec<(String, String)>)
    ensures
        r@.len() == crate::text::lines(out@).len(),
        forall|k: int|
            0 <= k < r@.len() ==> (#[trigger] r@[k]).0@ == crate::text::lines(out@)[k] && r@[k].1@
                == stash_ref_of(crate::text::lines(out@)[k]),
{
    let ls = crate::text::line_vecs(out);
    let ghost all = crate::text::lines(out@);
    let mut r: Vec<(String, String)> = Vec::new();
    let mut k: usize = 0;
    while k < ls.len()
        invariant
            k <= ls@.len(),
            all == crate::text::lines(out@),
            crate::text::char_views(ls@) == all,
            r@.len() == k,
            forall|j: int|
                0 <= j < k ==> (#[trigger] r@[j]).0@ == all[j] && r@[j].1@ == stash_ref_of(all[j]),
        decreases ls@.len() - k,
    {
        let l = &ls[k];
        assert(l@ == all[k as int]);
        let i = find_char(l, ':', 0, l.len());
        let (a, b) = trim_bounds(l, 0, i);
        r.push((string_from(l), string_of(l, a, b)));
        k += 1;
    }
    r
}

/// Where the line that starts at `i` ends, its `\n` included.
pub open spec fn line_end_incl(p: Seq<char>, i: int) -> int {
    let e = next_char(p, '\n', i, p.len() as int);
    if e < p.len() {
        e + 1
    } else {
        p.len() as int
    }
}

/// Whether a diff line opens a hunk (`@@ `).
pub open spec fn opens_hunk(line: Seq<char>) -> bool {
    line.len() >= 3 && line[0] == '@' && line[1] == '@' && line[2] == ' '
}

/// A diff read line by line from offset `i`, each line with its `\n`:
/// lines before the first hunk gather in the file header, a line opening a
/// hunk starts the next hunk, and other lines join the current hunk.
/// Gives the header and the hunks.
pub open spec fn hunk_walk(p: Seq<char>, i: int, header: Seq<char>, chunks: Seq<Seq<char>>) -> (Seq<char>, Seq<Seq<char>>)
    decreases p.len() - i,
{
    if i < 0 || i >= p.len() {
        (header, chunks)
    } else {
        let e = line_end_incl(p, i);
        let line = p.subrange(i, e);
        if e <= i {
            (header, chunks)
        } else if opens_hunk(line) {
            hunk_walk(p, e, header, chunks.push(line))
        } else if chunks.len() > 0 {
            hunk_walk(p, e, header, chunks.update(chunks.len() - 1, chunks.last() + line))
        } else {
            hunk_walk(p, e, header + line, chunks)
        }
    }
}

/// The title of a hunk: its first line (`str::lines`).
pub open spec fn hunk_title(h: Seq<char>) -> Seq<char> {
    let ls = line_spans_from(h, 0);
    if ls.len() == 0 {
        seq![]
    } else {
        h.subrange(ls[0].0, ls[0].1)
    }
}

/// The 0-indexed line a hunk starts at on the `+` side: the number after
/// `+` in its title (up to a `,`), less one; line 0 when it does not parse.
pub open spec fn hunk_start(h: Seq<char>) -> int {
    let t = hunk_title(h);
    match first_plus(t, word_spans_from(t, 0)) {
        None => 0,
        Some(w) => {
            let tok = t.subrange(w.0 + 1, w.1);
            let comma = next_char(tok, ',', 0, tok.len() as int);
            match parse_usize_spec(tok.subrange(0, comma)) {
                None => 0,
                Some(v) => dec_sat(v as int),
            }
        },
    }
}

/// The title of the hunk list.
pub open spec fn hunks_title(staged: bool) -> Seq<char> {
    if staged {
        "Staged hunks \u{2014} Enter unstages one hunk"@
    } else {
        "Git hunks \u{2014} Enter stages one saved hunk"@
    }
}

fn title_of(h: &Vec<char>) -> (r: Vec<char>)
    ensures
        r@ == hunk_title(h@),
{
    let ls = line_spans(h);
    if ls.len() == 0 {
        let e: Vec<char> = Vec::new();
        assert(e@ =~= Seq::<char>::empty());
        return e;
    }
    copy_range(h, ls[0].0, ls[0].1)
}

fn start_of(h: &Vec<char>) -> (r: usize)
    ensures
        r == hunk_start(h@),
{
    let t = title_of(h);
    let (w0, w1) = match plus_word(&t) {
        None => return 0,
        Some(w) => w,
    };
    let tok = copy_range(&t, w0 + 1, w1);
    let comma = find_char(&tok, ',', 0, tok.len());
    match parse_usize_at(&tok, 0, comma) {
        None => 0,
        Some(v) => if v > 0 {
            v - 1
        } else {
            0
        },
    }
}

/// The hunk list of one file: `patch` is the output of `git diff` for it
/// (of the index against HEAD when `staged`). Gives the list's title and,
/// per hunk, the line it starts at, its title line, its text, and the patch
/// that stages (or, `staged`, unstages) it alone: the file header followed
/// by the hunk.
pub fn hunks(patch: &str, staged: bool) -> (r: (String, Vec<(usize, String, String, String)>))
    ensures
        r.0@ == hunks_title(staged),
        ({
            let (header, chunks) = hunk_walk(patch@, 0, seq![], seq![]);
            &&& r.1@.len() == chunks.len()
            &&& forall|k: int| 0 <= k < r.1@.len() ==> {
                &&& (#[trigger] r.1@[k]).0 == hunk_start(chunks[k])
                &&& r.1@[k].1@ == hunk_title(chunks[k])
                &&& r.1@[k].2@ == chunks[k]
                &&& r.1@[k].3@ == header + chunks[k]
            }
        }),
{
    let p = chars_of(patch);
    let mut header: Vec<char> = Vec::new();
    let mut chunks: Vec<Vec<char>> = Vec::new();
    let mut i: usize = 0;
    assert(header@ =~= Seq::<char>::empty());
    assert(crate::text::char_views(chunks@) =~= Seq::<Seq<char>>::empty());
    while i < p.len()
        invariant
            p@ == patch@,
            i <= p@.len(),
            hunk_walk(p@, i as int, header@, crate::text::char_views(chunks@)) == hunk_walk(
                patch@,
                0,
                seq![],
                seq![],
            ),
        decreases p@.len() - i,
    {
        let nl = find_char(&p, '\n', i, p.len());
        let e = if nl < p.len() {
            nl + 1
        } else {
            p.len()
        };
        let line = copy_range(&p, i, e);
        let ghost cv = crate::text::char_views(chunks@);
        if e - i >= 3 && p[i] == '@' && p[i + 1] == '@' && p[i + 2] == ' ' {
            chunks.push(line);
            assert(crate::text::char_views(chunks@) =~= cv.push(line@));
        } else if chunks.len() > 0 {
            let mut h = chunks.pop().unwrap();
            let ghost before = h@;
            extend_chars(&mut h, line.as_slice());
            chunks.push(h);
            assert(crate::text::char_views(chunks@) =~= cv.update(cv.len() - 1, cv.last() + line@));
        } else {
            extend_chars(&mut header, line.as_slice());
        }
        i = e;
    }
    let ghost hv = header@;
    let ghost cv = crate::text::char_views(chunks@);
    let mut out: Vec<(usize, String, String, String)> = Vec::new();
    let mut k: usize = 0;
    while k < chunks.len()
        invariant
            k <= chunks@.len(),
            hv == header@,
            cv == crate::text::char_views(chunks@),
            out@.len() == k,
            forall|j: int| 0 <= j < k ==> {
                &&& (#[trigger] out@[j]).0 == hunk_start(cv[j])
                &&& out@[j].1@ == hunk_title(cv[j])
                &&& out@[j].2@ == cv[j]
                &&& out@[j].3@ == hv + cv[j]
            },
        decreases chunks@.len() - k,
    {
        let h = &chunks[k];
        assert(h@ == cv[k as int]);
        let mut whole = header.clone();
        extend_chars(&mut whole, h.as_slice());
        let title = title_of(h);
        out.push((start_of(h), string_from(&title), string_from(h), string_from(&whole)));
        k += 1;
    }
    let name = if staged {
        "Staged hunks \u{2014} Enter unstages one hunk"
    } else {
        "Git hunks \u{2014} Enter stages one saved hunk"
    };
    (String::from_str(name), out)
}


/// The first position from `i` on whose path is `p`, or the length.
pub open spec fn find_path(acc: Seq<(Seq<char>, char)>, p: Seq<char>, i: int) -> int
    decreases acc.len() - i,
{
    if i < 0 || i >= acc.len() {
        acc.len() as int
    } else if acc[i].0 == p {
        i
    } else {
        find_path(acc, p, i + 1)
    }
}

/// `acc` with `e` recorded: its path's letter replaced when the path is
/// there, else `e` added at the end.
pub open spec fn upsert(acc: Seq<(Seq<char>, char)>, e: (Seq<char>, char)) -> Seq<(Seq<char>, char)> {
    let i = find_path(acc, e.0, 0);
    if i < acc.len() { acc.update(i, e) } else { acc.push(e) }
}

/// The status map of the pairs, as a list: each path once, with the last
/// letter given for it, in the order the paths first come.
pub open spec fn status_entries(ps: Seq<(Seq<char>, char)>) -> Seq<(Seq<char>, char)>
    decreases ps.len(),
{
    if ps.len() == 0 { seq![] } else { upsert(status_entries(ps.drop_last()), ps.last()) }
}

proof fn lemma_find_path(acc: Seq<(Seq<char>, char)>, p: Seq<char>, i: int)
    requires
        0 <= i <= acc.len(),
    ensures
        i <= find_path(acc, p, i) <= acc.len(),
        find_path(acc, p, i) < acc.len() ==> acc[find_path(acc, p, i)].0 == p,
        forall|k: int| i <= k < find_path(acc, p, i) ==> acc[k].0 != p,
    decreases acc.len() - i,
{
    if i < acc.len() && acc[i].0 != p {
        lemma_find_path(acc, p, i + 1);
    }
}

/// The status of a working tree lists each path once.
pub proof fn law_status_paths_once(ps: Seq<(Seq<char>, char)>)
    ensures
        forall|i: int, j: int| 0 <= i < j < status_entries(ps).len() ==> status_entries(ps)[i].0 != status_entries(ps)[j].0,
    decreases ps.len(),
{
    if ps.len() > 0 {
        let acc = status_entries(ps.drop_last());
        let e = ps.last();
        law_status_paths_once(ps.drop_last());
        lemma_find_path(acc, e.0, 0);
        let r = status_entries(ps);
        assert(r == upsert(acc, e));
        assert forall|i: int, j: int| 0 <= i < j < r.len() implies r[i].0 != r[j].0 by {
            if find_path(acc, e.0, 0) < acc.len() {
                assert(r[i].0 == acc[i].0 && r[j].0 == acc[j].0);
            } else if j == acc.len() {
                assert(acc[i].0 != e.0);
            } else {
                assert(r[i] == acc[i] && r[j] == acc[j]);
            }
        }
    }
}

/// One-shot `git status`, for the file tree's decoration: each changed
/// path once with its status letter (M/A/D/R/C/U modified/added/deleted/
/// renamed/copied/unmerged, `?` untracked), the same idea as
/// `--porcelain`'s two-letter codes collapsed to whichever side has one; a
/// path listed twice keeps the later letter. `out` is the output of
/// `git status --porcelain=v1 -z --untracked-files=all`.
pub fn status(out: &str) -> (r: Vec<(String, char)>)
    ensures
        r@.map_values(|e: (String, char)| (e.0@, e.1)) == status_entries(status_spec(out@)),
{
    let ps = status_pairs(out);
    let ghost pv = status_spec(out@);
    proof {
        assert(ps@.map_values(|e: (String, char)| (e.0@, e.1)) =~= pv);
    }
    let mut acc: Vec<(String, char)> = Vec::new();
    let mut i: usize = 0;
    assert(pv.take(0) =~= Seq::<(Seq<char>, char)>::empty());
    while i < ps.len()
        invariant
            i <= ps@.len(),
            ps@.map_values(|e: (String, char)| (e.0@, e.1)) == pv,
            acc@.map_values(|e: (String, char)| (e.0@, e.1)) == status_entries(pv.take(i as int)),
        decreases ps@.len() - i,
    {
        let ghost av = acc@.map_values(|e: (String, char)| (e.0@, e.1));
        proof {
            assert(pv.take(i + 1).drop_last() =~= pv.take(i as int));
            assert(pv.take(i + 1).last() == pv[i as int]);
            assert(pv[i as int] == (ps@[i as int].0@, ps@[i as int].1));
            lemma_find_path(av, ps@[i as int].0@, 0);
        }
        let pc = chars_of(ps[i].0.as_str());
        let mut k: usize = 0;
        while k < acc.len() && !crate::text::chars_eq(&chars_of(acc[k].0.as_str()), &pc)
            invariant
                k <= acc@.len(),
                av == acc@.map_values(|e: (String, char)| (e.0@, e.1)),
                pc@ == ps@[i as int].0@,
                find_path(av, pc@, k as int) == find_path(av, pc@, 0),
            decreases acc@.len() - k,
        {
            assert(av[k as int].0 == acc@[k as int].0@);
            k += 1;
        }
        proof {
            if k < acc.len() {
                assert(av[k as int].0 == acc@[k as int].0@);
            }
        }
        let e = (string_from(&pc), ps[i].1);
        if k < acc.len() {
            acc.set(k, e);
            proof {
                assert(acc@.map_values(|e: (String, char)| (e.0@, e.1)) =~= av.update(k as int, pv[i as int]));
            }
        } else {
            acc.push(e);
            proof {
                assert(acc@.map_values(|e: (String, char)| (e.0@, e.1)) =~= av.push(pv[i as int]));
            }
        }
        i += 1;
    }
    assert(pv.take(pv.len() as int) =~= pv);
    acc
}


// ---------------------------------------------------------------- laws

/// The status letter of a code pair is the first of `? M A D U C R` that
/// occurs in it, and there is none only when none of them occurs: so a
/// deleted file (` D`, `D `) gets `D`.
pub proof fn law_status_marker_first_listed(xy: Seq<char>)
    ensures
        ({
            let order = seq!['?', 'M', 'A', 'D', 'U', 'C', 'R'];
            &&& (status_marker(xy) is None <==> forall|j: int| 0 <= j < order.len() ==> !xy.contains(#[trigger] order[j]))
            &&& forall|i: int| 0 <= i < order.len() && status_marker(xy) == Some(order[i]) ==> {
                &&& xy.contains(order[i])
                &&& forall|j: int| 0 <= j < i ==> !xy.contains(#[trigger] order[j])
            }
            &&& status_marker(xy) is Some ==> exists|i: int| 0 <= i < order.len() && status_marker(xy) == Some(#[trigger] order[i])
        }),
        xy.contains('D') && !xy.contains('?') && !xy.contains('M') && !xy.contains('A') ==> status_marker(xy) == Some('D'),
{
    let order = seq!['?', 'M', 'A', 'D', 'U', 'C', 'R'];
    assert(order[0] == '?' && order[1] == 'M' && order[2] == 'A' && order[3] == 'D' && order[4] == 'U' && order[5] == 'C' && order[6] == 'R');
    if status_marker(xy) is None {
        assert forall|j: int| 0 <= j < order.len() implies !xy.contains(#[trigger] order[j]) by {}
    }
    if status_marker(xy) is Some {
        let m = status_marker(xy)->0;
        if m == '?' { assert(status_marker(xy) == Some(order[0])); }
        else if m == 'M' { assert(status_marker(xy) == Some(order[1])); }
        else if m == 'A' { assert(status_marker(xy) == Some(order[2])); }
        else if m == 'D' { assert(status_marker(xy) == Some(order[3])); }
        else if m == 'U' { assert(status_marker(xy) == Some(order[4])); }
        else if m == 'C' { assert(status_marker(xy) == Some(order[5])); }
        else { assert(status_marker(xy) == Some(order[6])); }
    }
}

} // verus!
