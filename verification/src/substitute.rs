//! `:s/pat/rep/flags` over a range of lines: the flags checked, the case
//! rule applied, the pattern compiled with fancy-regex and each line's
//! replacement computed. The editor applies the changed lines as one undo
//! step.
use vstd::prelude::*;
use crate::text::{chars_of, extend_chars, is_uppercase, string_from, uppercase};

verus! {

#[verifier::external_type_specification]
#[verifier::external_body]
pub struct ExFancyRegex(fancy_regex::Regex);

/// Whether fancy-regex compiles pattern `p` (case-insensitively when `ci`).
pub uninterp spec fn fancy_compiles(p: Seq<char>, ci: bool) -> bool;

/// The text of the error fancy-regex gives for a pattern it refuses.
pub uninterp spec fn fancy_build_error(p: Seq<char>, ci: bool) -> Seq<char>;

/// The pattern, case setting and backtrack limit a compiled regex was
/// built with.
pub uninterp spec fn fancy_source(r: fancy_regex::Regex) -> (Seq<char>, bool, usize);

/// What `fancy_regex::Regex::try_replacen` gives for a regex built from
/// `src`: the text with at most `limit` matches (every match for 0)
/// replaced by `rep` (with `$` group references expanded), or the text of
/// the error it stopped on (such as the backtrack limit).
pub uninterp spec fn fancy_replacen(src: (Seq<char>, bool, usize), text: Seq<char>, limit: usize, rep: Seq<char>) -> Result<Seq<char>, Seq<char>>;

/// `fancy_regex::RegexBuilder` with `backtrack_limit` and
/// `case_insensitive`, then `build`: the regex when the pattern compiles,
/// else the error's text.
#[verifier::external_body]
pub(crate) fn fancy_build(p: &str, ci: bool, backtrack: usize) -> (r: Result<fancy_regex::Regex, String>)
    ensures
        match r {
            Ok(x) => fancy_compiles(p@, ci) && fancy_source(x) == (p@, ci, backtrack),
            Err(e) => !fancy_compiles(p@, ci) && e@ == fancy_build_error(p@, ci),
        },
{
    match fancy_regex::RegexBuilder::new(p).backtrack_limit(backtrack).case_insensitive(ci).build() {
        Ok(x) => Ok(x),
        Err(e) => Err(e.to_string()),
    }
}

/// `fancy_regex::Regex::try_replacen`, by the name `fancy_replacen`.
#[verifier::external_body]
fn fancy_try_replacen(r: &fancy_regex::Regex, text: &str, limit: usize, rep: &str) -> (out: Result<String, String>)
    ensures
        match out {
            Ok(s) => fancy_replacen(fancy_source(*r), text@, limit, rep@) == Ok::<Seq<char>, Seq<char>>(s@),
            Err(e) => fancy_replacen(fancy_source(*r), text@, limit, rep@) == Err::<Seq<char>, Seq<char>>(e@),
        },
{
    match r.try_replacen(text, limit, rep) {
        Ok(s) => Ok(s.into_owned()),
        Err(e) => Err(e.to_string()),
    }
}

/// The backtracking budget of a substitute's regex.
pub open spec fn sub_backtrack() -> usize {
    100_000
}

/// Whether the substitute flags are only `g`, `i` and `I`.
pub open spec fn flags_ok(flags: Seq<char>) -> bool {
    forall|k: int| 0 <= k < flags.len() ==> (#[trigger] flags[k] == 'g' || flags[k] == 'i' || flags[k] == 'I')
}

/// Whether the pattern has an upper-case char (smartcase's test).
pub open spec fn has_upper(p: Seq<char>) -> bool {
    exists|k: int| 0 <= k < p.len() && uppercase(#[trigger] p[k])
}

/// Whether the substitute ignores case: `i` says so, `I` says not, else
/// `ignorecase` does, unless `smartcase` is on and the pattern has an
/// upper-case char.
pub open spec fn sub_case_insensitive(p: Seq<char>, flags: Seq<char>, ignorecase: bool, smartcase: bool) -> bool {
    flags.contains('i') || (!flags.contains('I') && ignorecase && !(smartcase && has_upper(p)))
}

/// The lines `lines[k..]` substituted, numbered from `first + k`: each
/// line with its replacement, or the first error.
pub open spec fn sub_lines(src: (Seq<char>, bool, usize), lines: Seq<Seq<char>>, first: int, limit: usize, rep: Seq<char>, k: int) -> Result<Seq<(int, Seq<char>, Seq<char>)>, Seq<char>>
    decreases lines.len() - k,
{
    if k < 0 || k >= lines.len() {
        Ok(seq![])
    } else {
        match fancy_replacen(src, lines[k], limit, rep) {
            Err(e) => Err("Substitution failed: "@ + e),
            Ok(t) => match sub_lines(src, lines, first, limit, rep, k + 1) {
                Err(e) => Err(e),
                Ok(rest) => Ok(seq![(first + k, lines[k], t)] + rest),
            },
        }
    }
}

/// A substitute over `lines` (line `first` on): the flags must be `g`, `i`
/// or `I`; the pattern is compiled with the case rule of
/// `sub_case_insensitive`; each line gets its first match replaced (every
/// match with `g`); the first error stops it.
pub open spec fn substitute_spec(lines: Seq<Seq<char>>, first: int, pattern: Seq<char>, rep: Seq<char>, flags: Seq<char>, ignorecase: bool, smartcase: bool) -> Result<Seq<(int, Seq<char>, Seq<char>)>, Seq<char>> {
    if !flags_ok(flags) {
        Err("unsupported substitute flag (supported: g i I)"@)
    } else {
        let ci = sub_case_insensitive(pattern, flags, ignorecase, smartcase);
        if !fancy_compiles(pattern, ci) {
            Err("bad pattern: "@ + fancy_build_error(pattern, ci))
        } else {
            sub_lines((pattern, ci, sub_backtrack()), lines, first, if flags.contains('g') { 0 } else { 1 }, rep, 0)
        }
    }
}

/// A substituted line by its plain values.
pub open spec fn sub_view(e: (usize, String, String)) -> (int, Seq<char>, Seq<char>) {
    (e.0 as int, e.1@, e.2@)
}

fn has_char(v: &Vec<char>, c: char) -> (r: bool)
    ensures
        r == v@.contains(c),
{
    let mut i: usize = 0;
    while i < v.len()
        invariant
            i <= v@.len(),
            forall|k: int| 0 <= k < i ==> v@[k] != c,
        decreases v@.len() - i,
    {
        if v[i] == c {
            return true;
        }
        i += 1;
    }
    false
}

fn prefixed(prefix: &str, rest: &String) -> (r: String)
    ensures
        r@ == prefix@ + rest@,
{
    let mut v = chars_of(prefix);
    extend_chars(&mut v, chars_of(rest.as_str()).as_slice());
    string_from(&v)
}

/// `:s` with a pattern given (see `substitute_spec`).
fn substitute_given(lines: &Vec<String>, first: usize, pattern: &str, replacement: &str, flags: &str, ignorecase: bool, smartcase: bool) -> (r: Result<Vec<(usize, String, String)>, String>)
    requires
        first + lines@.len() <= usize::MAX,
    ensures
        match substitute_spec(crate::text::views(lines@), first as int, pattern@, replacement@, flags@, ignorecase, smartcase) {
            Ok(es) => r matches Ok(v) && v@.map_values(|e: (usize, String, String)| sub_view(e)) == es,
            Err(m) => r matches Err(e) && e@ == m,
        },
{
    let fv = chars_of(flags);
    let mut i: usize = 0;
    while i < fv.len()
        invariant
            i <= fv@.len(),
            fv@ == flags@,
            forall|k: int| 0 <= k < i ==> (#[trigger] fv@[k] == 'g' || fv@[k] == 'i' || fv@[k] == 'I'),
        decreases fv@.len() - i,
    {
        let c = fv[i];
        if !(c == 'g' || c == 'i' || c == 'I') {
            assert(!flags_ok(flags@));
            return Err(String::from_str("unsupported substitute flag (supported: g i I)"));
        }
        i += 1;
    }
    let pv = chars_of(pattern);
    let mut upper = false;
    let mut j: usize = 0;
    while j < pv.len() && !upper
        invariant
            j <= pv@.len(),
            pv@ == pattern@,
            upper ==> has_upper(pattern@),
            !upper ==> forall|k: int| 0 <= k < j ==> !uppercase(#[trigger] pv@[k]),
        decreases pv@.len() - j + if upper { 0int } else { 1int },
    {
        if is_uppercase(pv[j]) {
            upper = true;
        } else {
            j += 1;
        }
    }
    let ci = has_char(&fv, 'i') || (!has_char(&fv, 'I') && ignorecase && !(smartcase && upper));
    let re = match fancy_build(pattern, ci, 100_000) {
        Ok(x) => x,
        Err(e) => {
            return Err(prefixed("bad pattern: ", &e));
        },
    };
    let limit: usize = if has_char(&fv, 'g') { 0 } else { 1 };
    let ghost src = (pattern@, ci, sub_backtrack());
    let ghost lv = crate::text::views(lines@);
    proof {
        assert(flags_ok(flags@));
        if upper {
            assert(has_upper(pattern@));
        } else {
            assert(!has_upper(pattern@));
        }
        assert(substitute_spec(lv, first as int, pattern@, replacement@, flags@, ignorecase, smartcase)
            == sub_lines(src, lv, first as int, limit, replacement@, 0));
    }
    let mut out: Vec<(usize, String, String)> = Vec::new();
    let mut k: usize = 0;
    while k < lines.len()
        invariant
            k <= lines@.len(),
            first + lines@.len() <= usize::MAX,
            lv == crate::text::views(lines@),
            fancy_source(re) == src,
            substitute_spec(lv, first as int, pattern@, replacement@, flags@, ignorecase, smartcase)
                == sub_lines(src, lv, first as int, limit, replacement@, 0),
            out@.len() == k,
            forall|m: int| 0 <= m < k ==> sub_view(#[trigger] out@[m]).0 == first + m && sub_view(out@[m]).1 == lv[m]
                && fancy_replacen(src, lv[m], limit, replacement@) == Ok::<Seq<char>, Seq<char>>(sub_view(out@[m]).2),
        decreases lines@.len() - k,
    {
        match fancy_try_replacen(&re, lines[k].as_str(), limit, replacement) {
            Ok(t) => {
                assert(lines@[k as int]@ == lv[k as int]);
                out.push((first + k, string_from(&chars_of(lines[k].as_str())), t));
            },
            Err(e) => {
                proof {
                    assert(lines@[k as int]@ == lv[k as int]);
                    assert forall|m: int| 0 <= m < k implies #[trigger] fancy_replacen(src, lv[m], limit, replacement@) is Ok by {
                        assert(sub_view(out@[m]).1 == lv[m]);
                    }
                    lemma_sub_lines_err(src, lv, first as int, limit, replacement@, k as int);
                }
                return Err(prefixed("Substitution failed: ", &e));
            },
        }
        k += 1;
    }
    proof {
        lemma_sub_lines_ok(src, lv, first as int, limit, replacement@, 0, out@.map_values(|e: (usize, String, String)| sub_view(e)));
    }
    Ok(out)
}

/// An error on line `k`, after lines that all replaced, is the walk's error.
proof fn lemma_sub_lines_err(src: (Seq<char>, bool, usize), lines: Seq<Seq<char>>, first: int, limit: usize, rep: Seq<char>, k: int)
    requires
        0 <= k < lines.len(),
        fancy_replacen(src, lines[k], limit, rep) is Err,
        forall|m: int| 0 <= m < k ==> #[trigger] fancy_replacen(src, lines[m], limit, rep) is Ok,
    ensures
        sub_lines(src, lines, first, limit, rep, 0) == Err::<Seq<(int, Seq<char>, Seq<char>)>, Seq<char>>("Substitution failed: "@ + fancy_replacen(src, lines[k], limit, rep)->Err_0),
    decreases k,
{
    lemma_sub_lines_err_from(src, lines, first, limit, rep, 0, k);
}

proof fn lemma_sub_lines_err_from(src: (Seq<char>, bool, usize), lines: Seq<Seq<char>>, first: int, limit: usize, rep: Seq<char>, j: int, k: int)
    requires
        0 <= j <= k < lines.len(),
        fancy_replacen(src, lines[k], limit, rep) is Err,
        forall|m: int| 0 <= m < k ==> #[trigger] fancy_replacen(src, lines[m], limit, rep) is Ok,
    ensures
        sub_lines(src, lines, first, limit, rep, j) == Err::<Seq<(int, Seq<char>, Seq<char>)>, Seq<char>>("Substitution failed: "@ + fancy_replacen(src, lines[k], limit, rep)->Err_0),
    decreases k - j,
{
    if j < k {
        lemma_sub_lines_err_from(src, lines, first, limit, rep, j + 1, k);
    }
}

/// When every line replaced, the walk gives them all.
proof fn lemma_sub_lines_ok(src: (Seq<char>, bool, usize), lines: Seq<Seq<char>>, first: int, limit: usize, rep: Seq<char>, j: int, out: Seq<(int, Seq<char>, Seq<char>)>)
    requires
        0 <= j <= lines.len(),
        out.len() == lines.len(),
        forall|m: int| 0 <= m < lines.len() ==> (#[trigger] out[m]).0 == first + m && out[m].1 == lines[m]
            && fancy_replacen(src, lines[m], limit, rep) == Ok::<Seq<char>, Seq<char>>(out[m].2),
    ensures
        sub_lines(src, lines, first, limit, rep, j) == Ok::<Seq<(int, Seq<char>, Seq<char>)>, Seq<char>>(out.subrange(j, lines.len() as int)),
    decreases lines.len() - j,
{
    if j < lines.len() {
        lemma_sub_lines_ok(src, lines, first, limit, rep, j + 1, out);
        assert(out.subrange(j, lines.len() as int) =~= seq![out[j]] + out.subrange(j + 1, lines.len() as int));
    } else {
        assert(out.subrange(j, lines.len() as int) =~= Seq::<(int, Seq<char>, Seq<char>)>::empty());
    }
}


/// `:s` as typed: an empty pattern reuses the last search pattern
/// `last_search`, and with no earlier search the command is refused;
/// otherwise `substitute_spec` with the pattern given.
pub open spec fn substitute_full_spec(lines: Seq<Seq<char>>, first: int, pattern: Seq<char>, rep: Seq<char>, flags: Seq<char>, ignorecase: bool, smartcase: bool, last_search: Option<Seq<char>>) -> Result<Seq<(int, Seq<char>, Seq<char>)>, Seq<char>> {
    if pattern.len() == 0 {
        match last_search {
            None => Err("E35: no previous regular expression"@),
            Some(p) => substitute_spec(lines, first, p, rep, flags, ignorecase, smartcase),
        }
    } else {
        substitute_spec(lines, first, pattern, rep, flags, ignorecase, smartcase)
    }
}

/// A walk that succeeds from line `k` gives one entry for each line from
/// `k` on.
proof fn lemma_sub_lines_len(src: (Seq<char>, bool, usize), lines: Seq<Seq<char>>, first: int, limit: usize, rep: Seq<char>, k: int)
    requires
        0 <= k <= lines.len(),
        sub_lines(src, lines, first, limit, rep, k) is Ok,
    ensures
        sub_lines(src, lines, first, limit, rep, k)->Ok_0.len() == lines.len() - k,
    decreases lines.len() - k,
{
    if k < lines.len() {
        lemma_sub_lines_len(src, lines, first, limit, rep, k + 1);
    }
}

/// A substitute that succeeds gives one entry for each line it covers.
pub proof fn lemma_substitute_len(lines: Seq<Seq<char>>, first: int, pattern: Seq<char>, rep: Seq<char>, flags: Seq<char>, ignorecase: bool, smartcase: bool, last_search: Option<Seq<char>>)
    requires
        substitute_full_spec(lines, first, pattern, rep, flags, ignorecase, smartcase, last_search) is Ok,
    ensures
        substitute_full_spec(lines, first, pattern, rep, flags, ignorecase, smartcase, last_search)->Ok_0.len() == lines.len(),
{
    let p = if pattern.len() == 0 { last_search->0 } else { pattern };
    let ci = sub_case_insensitive(p, flags, ignorecase, smartcase);
    lemma_sub_lines_len((p, ci, sub_backtrack()), lines, first, if flags.contains('g') { 0 } else { 1 }, rep, 0);
}

/// `:s` over the texts of lines `first..` (see `substitute_full_spec`):
/// each line with its new text, or the message the editor shows (and
/// then nothing changes).
pub fn substitute_lines(lines: &Vec<String>, first: usize, pattern: &str, replacement: &str, flags: &str, ignorecase: bool, smartcase: bool, last_search: Option<&str>) -> (r: Result<Vec<(usize, String, String)>, String>)
    requires
        first + lines@.len() <= usize::MAX,
    ensures
        match substitute_full_spec(crate::text::views(lines@), first as int, pattern@, replacement@, flags@, ignorecase, smartcase, match last_search { Some(p) => Some(p@), None => None }) {
            Ok(es) => r matches Ok(v) && v@.map_values(|e: (usize, String, String)| sub_view(e)) == es,
            Err(m) => r matches Err(e) && e@ == m,
        },
{
    if chars_of(pattern).len() == 0 {
        match last_search {
            None => Err(string_from(&chars_of("E35: no previous regular expression"))),
            Some(p) => substitute_given(lines, first, p, replacement, flags, ignorecase, smartcase),
        }
    } else {
        substitute_given(lines, first, pattern, replacement, flags, ignorecase, smartcase)
    }
}

} // verus!
