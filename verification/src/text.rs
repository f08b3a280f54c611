//! Character-level text helpers shared by the parsers of the editor: line
//! splitting, trimming, searching and decimal parsing, all over `Seq<char>`
//! models of `str`/`String`, plus the few `char` and `str` facts of std that
//! vstd does not specify.
use vstd::prelude::*;

verus! {

// ---------------------------------------------------------------- models

/// `char::is_whitespace`: the Unicode `White_Space` property.
pub open spec fn is_ws(c: char) -> bool {
    let u = c as u32;
    ||| 0x09 <= u <= 0x0d
    ||| u == 0x20
    ||| u == 0x85
    ||| u == 0xa0
    ||| u == 0x1680
    ||| 0x2000 <= u <= 0x200a
    ||| u == 0x2028
    ||| u == 0x2029
    ||| u == 0x202f
    ||| u == 0x205f
    ||| u == 0x3000
}

/// `char::is_ascii_digit`.
pub open spec fn is_digit(c: char) -> bool {
    '0' <= c <= '9'
}

/// `char::to_ascii_lowercase`.
pub open spec fn ascii_lower(c: char) -> char {
    if 'A' <= c <= 'Z' {
        ((c as u32) + 32) as char
    } else {
        c
    }
}

/// `str::to_ascii_lowercase`.
pub open spec fn ascii_lower_seq(s: Seq<char>) -> Seq<char> {
    s.map_values(|c: char| ascii_lower(c))
}

/// `char::is_alphanumeric` beyond ASCII: the Unicode `Alphabetic` or
/// `Numeric` property.
pub uninterp spec fn unicode_alphanumeric(c: char) -> bool;

/// `char::is_uppercase` beyond ASCII: the Unicode `Uppercase` property.
pub uninterp spec fn unicode_uppercase(c: char) -> bool;

/// `char::to_lowercase` beyond ASCII: the full lower-case mapping.
pub uninterp spec fn unicode_lowercase(c: char) -> Seq<char>;

/// `str::to_lowercase` of a text that is not all ASCII.
pub uninterp spec fn unicode_str_lowercase(s: Seq<char>) -> Seq<char>;

/// Whether `c` is ASCII.
pub open spec fn is_ascii_char(c: char) -> bool {
    (c as u32) <= 0x7f
}

/// Whether `c` is alphanumeric (`char::is_alphanumeric`): an ASCII digit
/// or letter, or beyond ASCII the Unicode property.
pub open spec fn alphanumeric(c: char) -> bool {
    if is_ascii_char(c) { is_digit(c) || ('a' <= c <= 'z') || ('A' <= c <= 'Z') } else { unicode_alphanumeric(c) }
}

/// Whether `c` is upper-case (`char::is_uppercase`): an ASCII capital, or
/// beyond ASCII the Unicode property.
pub open spec fn uppercase(c: char) -> bool {
    if is_ascii_char(c) { 'A' <= c <= 'Z' } else { unicode_uppercase(c) }
}

/// The lower-case mapping of a char (`char::to_lowercase`): the ASCII
/// lower case, or beyond ASCII the Unicode mapping.
pub open spec fn lowercase(c: char) -> Seq<char> {
    if is_ascii_char(c) { seq![ascii_lower(c)] } else { unicode_lowercase(c) }
}

/// `char::is_alphanumeric`.
#[verifier::external_body]
pub(crate) fn is_alphanumeric(c: char) -> (r: bool)
    ensures
        r == alphanumeric(c),
        !is_ascii_char(c) ==> r == unicode_alphanumeric(c),
{
    c.is_alphanumeric()
}

/// `char::is_uppercase`.
#[verifier::external_body]
pub(crate) fn is_uppercase(c: char) -> (r: bool)
    ensures
        r == uppercase(c),
        !is_ascii_char(c) ==> r == unicode_uppercase(c),
{
    c.is_uppercase()
}

/// `char::to_lowercase`, collected.
#[verifier::external_body]
pub(crate) fn to_lowercase(c: char) -> (r: Vec<char>)
    ensures
        r@ == lowercase(c),
        !is_ascii_char(c) ==> r@ == unicode_lowercase(c),
{
    c.to_lowercase().collect()
}

/// The lower-case mapping of a string (`str::to_lowercase`): ASCII text
/// lower-cased char by char, other text by the Unicode mapping.
pub open spec fn str_lowercase(s: Seq<char>) -> Seq<char> {
    if forall|k: int| 0 <= k < s.len() ==> is_ascii_char(#[trigger] s[k]) {
        ascii_lower_seq(s)
    } else {
        unicode_str_lowercase(s)
    }
}

/// `str::to_lowercase`.
#[verifier::external_body]
pub(crate) fn lowercase_str(s: &str) -> (r: String)
    ensures
        r@ == str_lowercase(s@),
        !(forall|k: int| 0 <= k < s@.len() ==> is_ascii_char(#[trigger] s@[k])) ==> r@ == unicode_str_lowercase(s@),
{
    s.to_lowercase()
}

/// Whether `c` is white space as Unicode's `White_Space` property says
/// (`char::is_whitespace`).
pub(crate) fn is_whitespace(c: char) -> (r: bool)
    ensures
        r == is_ws(c),
{
    let u = c as u32;
    (0x09 <= u && u <= 0x0d) || u == 0x20 || u == 0x85 || u == 0xa0 || u == 0x1680
        || (0x2000 <= u && u <= 0x200a) || u == 0x2028 || u == 0x2029 || u == 0x202f
        || u == 0x205f || u == 0x3000
}

/// `String::push`.
#[verifier::external_body]
pub(crate) fn push_char(s: &mut String, c: char)
    ensures
        final(s)@ == old(s)@.push(c),
{
    s.push(c);
}

/// The value of a run of decimal digits.
pub open spec fn digits_value(s: Seq<char>) -> nat
    decreases s.len(),
{
    if s.len() == 0 {
        0
    } else {
        digits_value(s.drop_last()) * 10 + ((s.last() as u32) - ('0' as u32)) as nat
    }
}

/// Whether `d` is all digits.
pub open spec fn all_digits(d: Seq<char>) -> bool {
    forall|i: int| 0 <= i < d.len() ==> is_digit(#[trigger] d[i])
}

/// What `str::parse::<usize>` accepts: an optional `+`, then one or more
/// ASCII digits whose value fits in `usize`.
pub open spec fn parse_usize_spec(s: Seq<char>) -> Option<usize> {
    let d = if s.len() > 0 && s[0] == '+' {
        s.drop_first()
    } else {
        s
    };
    if d.len() > 0 && all_digits(d) && digits_value(d) <= usize::MAX {
        Some(digits_value(d) as usize)
    } else {
        None
    }
}

/// A run of digits is worth at least any of its prefixes.
proof fn lemma_digits_value_prefix(d: Seq<char>, k: int)
    requires
        0 <= k <= d.len(),
        forall|i: int| 0 <= i < d.len() ==> is_digit(#[trigger] d[i]),
    ensures
        digits_value(d.subrange(0, k)) <= digits_value(d),
    decreases d.len(),
{
    if k < d.len() {
        let e = d.drop_last();
        assert(e.subrange(0, k) =~= d.subrange(0, k));
        assert forall|i: int| 0 <= i < e.len() implies is_digit(#[trigger] e[i]) by {
            assert(e[i] == d[i]);
        }
        lemma_digits_value_prefix(e, k);
    } else {
        assert(d.subrange(0, k) =~= d);
    }
}

proof fn lemma_digit_step(d: Seq<char>, k: int)
    requires
        0 <= k < d.len(),
    ensures
        digits_value(d.subrange(0, k + 1)) == digits_value(d.subrange(0, k)) * 10 + ((d[k] as u32) - ('0' as u32)) as nat,
{
    let p = d.subrange(0, k + 1);
    assert(p.drop_last() =~= d.subrange(0, k));
}

/// The number `s` writes in decimal, as `str::parse::<usize>` reads it
/// (see `parse_usize_spec`); `None` where that gives an error.
pub(crate) fn parse_usize(s: &str) -> (r: Option<usize>)
    ensures
        r == parse_usize_spec(s@),
{
    let v = chars_of(s);
    let start: usize = if v.len() > 0 && v[0] == '+' { 1 } else { 0 };
    let ghost d = v@.subrange(start as int, v@.len() as int);
    let ghost want = parse_usize_spec(s@);
    proof {
        assert(v@ == s@);
        if start == 1 {
            assert(s@.len() > 0 && s@[0] == '+');
            assert(d =~= s@.drop_first());
        } else {
            assert(!(s@.len() > 0 && s@[0] == '+'));
            assert(d =~= s@);
        }
    }
    if start >= v.len() {
        return None;
    }
    let mut acc: usize = 0;
    let mut i: usize = start;
    assert(d.subrange(0, 0) =~= Seq::<char>::empty());
    while i < v.len()
        invariant
            start <= i <= v@.len(),
            d == v@.subrange(start as int, v@.len() as int),
            d.len() > 0,
            want == parse_usize_spec(s@),
            want == if all_digits(d) && digits_value(d) <= usize::MAX { Some(digits_value(d) as usize) } else { None::<usize> },
            all_digits(d.subrange(0, i - start)),
            acc as nat == digits_value(d.subrange(0, i - start)),
        decreases v@.len() - i,
    {
        let c = v[i];
        let ghost k = i - start;
        assert(d[k] == c);
        if !('0' <= c && c <= '9') {
            assert(!all_digits(d));
            return None;
        }
        let dg: usize = (c as u32 - '0' as u32) as usize;
        proof {
            lemma_digit_step(d, k);
            assert(all_digits(d.subrange(0, k + 1))) by {
                assert forall|j: int| 0 <= j < k + 1 implies is_digit(#[trigger] d.subrange(0, k + 1)[j]) by {
                    if j < k {
                        assert(d.subrange(0, k + 1)[j] == d.subrange(0, k)[j]);
                    }
                }
            }
        }
        if acc > (usize::MAX - dg) / 10 {
            proof {
                let p = d.subrange(0, k + 1);
                assert(digits_value(p) > usize::MAX) by (nonlinear_arith)
                    requires
                        digits_value(p) == acc * 10 + dg,
                        acc > (usize::MAX - dg) / 10,
                        dg <= 9;
                if all_digits(d) {
                    lemma_digits_value_prefix(d, k + 1);
                }
            }
            return None;
        }
        proof {
            assert(acc * 10 + dg <= usize::MAX) by (nonlinear_arith)
                requires
                    acc <= (usize::MAX - dg) / 10,
                    dg <= 9;
        }
        acc = acc * 10 + dg;
        i += 1;
    }
    assert(d.subrange(0, i - start) =~= d);
    Some(acc)
}

// ---------------------------------------------------------------- conversions

/// The characters of `s`, in order.
pub fn chars_of(s: &str) -> (out: Vec<char>)
    ensures
        out@ == s@,
{
    let mut out: Vec<char> = Vec::new();
    for c in it: s.chars()
        invariant
            out@ == it.seq().take(it.index() as int),
            it.seq() == s@,
    {
        out.push(c);
    }
    out
}

/// A `String` holding `s[lo..hi]`.
pub fn string_of(s: &[char], lo: usize, hi: usize) -> (out: String)
    requires
        lo <= hi <= s@.len(),
    ensures
        out@ == s@.subrange(lo as int, hi as int),
{
    let mut out = String::new();
    let mut i = lo;
    while i < hi
        invariant
            lo <= i <= hi <= s@.len(),
            out@ == s@.subrange(lo as int, i as int),
        decreases hi - i,
    {
        push_char(&mut out, s[i]);
        assert(s@.subrange(lo as int, i + 1) == s@.subrange(lo as int, i as int).push(s@[i as int]));
        i += 1;
    }
    out
}

/// A `String` holding all of `s`.
pub fn string_from(s: &[char]) -> (out: String)
    ensures
        out@ == s@,
{
    let out = string_of(s, 0, s.len());
    assert(s@.subrange(0, s@.len() as int) == s@);
    out
}

/// `s[lo..hi]` as a new vector.
pub fn copy_range(s: &[char], lo: usize, hi: usize) -> (out: Vec<char>)
    requires
        lo <= hi <= s@.len(),
    ensures
        out@ == s@.subrange(lo as int, hi as int),
{
    let mut out: Vec<char> = Vec::new();
    let mut i = lo;
    while i < hi
        invariant
            lo <= i <= hi <= s@.len(),
            out@ == s@.subrange(lo as int, i as int),
        decreases hi - i,
    {
        out.push(s[i]);
        assert(s@.subrange(lo as int, i + 1) == s@.subrange(lo as int, i as int).push(s@[i as int]));
        i += 1;
    }
    out
}

/// Appends `t` to `out`.
pub fn extend_chars(out: &mut Vec<char>, t: &[char])
    ensures
        final(out)@ == old(out)@ + t@,
{
    let mut i: usize = 0;
    while i < t.len()
        invariant
            i <= t@.len(),
            out@ == old(out)@ + t@.subrange(0, i as int),
        decreases t@.len() - i,
    {
        out.push(t[i]);
        assert(t@.subrange(0, i + 1) == t@.subrange(0, i as int).push(t@[i as int]));
        i += 1;
    }
    assert(t@.subrange(0, t@.len() as int) == t@);
}

/// Parses `s[lo..hi]` as a `usize` exactly as `str::parse` does.
pub fn parse_usize_at(s: &[char], lo: usize, hi: usize) -> (r: Option<usize>)
    requires
        lo <= hi <= s@.len(),
    ensures
        r == parse_usize_spec(s@.subrange(lo as int, hi as int)),
{
    let t = string_of(s, lo, hi);
    parse_usize(t.as_str())
}

/// Appending one element and then a sequence is appending their concatenation.
pub proof fn lemma_push_concat<A>(a: Seq<A>, x: A, c: Seq<A>)
    ensures
        a + (seq![x] + c) == a.push(x) + c,
{
    assert(a + (seq![x] + c) =~= a.push(x) + c);
}

// ---------------------------------------------------------------- comparing

/// Whether `s[at..]` begins with `p`.
pub open spec fn matches_at(s: Seq<char>, at: int, p: Seq<char>) -> bool {
    0 <= at && at + p.len() <= s.len() && s.subrange(at, at + p.len()) == p
}

/// Whether `s[at..]` begins with `p`.
pub fn starts_at(s: &[char], at: usize, p: &[char]) -> (r: bool)
    ensures
        r == matches_at(s@, at as int, p@),
{
    if at > s.len() || p.len() > s.len() - at {
        return false;
    }
    let n = s.len();
    let mut i: usize = 0;
    while i < p.len()
        invariant
            n == s@.len(),
            at + p@.len() <= s@.len(),
            i <= p@.len(),
            forall|k: int| 0 <= k < i ==> s@[at + k] == p@[k],
        decreases p@.len() - i,
    {
        if s[at + i] != p[i] {
            assert(s@.subrange(at as int, at + p@.len())[i as int] != p@[i as int]);
            return false;
        }
        i += 1;
    }
    assert(s@.subrange(at as int, at + p@.len()) =~= p@);
    true
}

/// Whether two character sequences are equal.
pub fn chars_eq(a: &[char], b: &[char]) -> (r: bool)
    ensures
        r == (a@ == b@),
{
    if a.len() != b.len() {
        return false;
    }
    let r = starts_at(a, 0, b);
    proof {
        if r {
            assert(a@.subrange(0, b@.len() as int) == a@);
        } else {
            assert(a@.subrange(0, a@.len() as int) =~= a@);
        }
    }
    r
}

/// `s` with ASCII upper-case letters lowered (`str::to_ascii_lowercase`).
pub fn to_ascii_lower(s: &[char]) -> (r: Vec<char>)
    ensures
        r@ == ascii_lower_seq(s@),
{
    let mut r: Vec<char> = Vec::new();
    let mut i: usize = 0;
    while i < s.len()
        invariant
            i <= s@.len(),
            r@ == ascii_lower_seq(s@.subrange(0, i as int)),
        decreases s@.len() - i,
    {
        let c = s[i];
        let l = if 'A' <= c && c <= 'Z' {
            ((c as u32) + 32) as u8 as char
        } else {
            c
        };
        proof {
            if 'A' <= c && c <= 'Z' {
                assert(((c as u32) + 32) as u8 as char == ascii_lower(c));
            }
        }
        r.push(l);
        assert(ascii_lower_seq(s@.subrange(0, i + 1)) =~= ascii_lower_seq(s@.subrange(0, i as int)).push(ascii_lower(c)));
        i += 1;
    }
    assert(s@.subrange(0, s@.len() as int) =~= s@);
    r
}

/// Whether `a` and `b` are equal up to ASCII case (`str::eq_ignore_ascii_case`).
pub fn eq_ignore_ascii_case(a: &[char], b: &[char]) -> (r: bool)
    ensures
        r == (ascii_lower_seq(a@) == ascii_lower_seq(b@)),
{
    let x = to_ascii_lower(a);
    let y = to_ascii_lower(b);
    chars_eq(&x, &y)
}

/// `str::eq_ignore_ascii_case`.
pub fn eq_ignore_ascii_case_str(a: &str, b: &str) -> (r: bool)
    ensures
        r == (ascii_lower_seq(a@) == ascii_lower_seq(b@)),
{
    eq_ignore_ascii_case(&chars_of(a), &chars_of(b))
}

/// Whether `s` ends with `p`.
pub fn ends_with(s: &[char], p: &[char]) -> (r: bool)
    ensures
        r == p@.is_suffix_of(s@),
{
    if p.len() > s.len() {
        return false;
    }
    let r = starts_at(s, s.len() - p.len(), p);
    assert(r == p@.is_suffix_of(s@));
    r
}

// ---------------------------------------------------------------- searching

/// The first index at or after `from` (and before `hi`) holding `c`, or `hi`.
pub open spec fn next_char(s: Seq<char>, c: char, from: int, hi: int) -> int
    decreases hi - from,
{
    if from >= hi {
        hi
    } else if s[from] == c {
        from
    } else {
        next_char(s, c, from + 1, hi)
    }
}

pub proof fn lemma_next_char(s: Seq<char>, c: char, from: int, hi: int)
    requires
        0 <= from <= hi <= s.len(),
    ensures
        from <= next_char(s, c, from, hi) <= hi,
        next_char(s, c, from, hi) < hi ==> s[next_char(s, c, from, hi)] == c,
        forall|k: int| from <= k < next_char(s, c, from, hi) ==> s[k] != c,
    decreases hi - from,
{
    if from < hi && s[from] != c {
        lemma_next_char(s, c, from + 1, hi);
    }
}

/// The first index in `s[from..hi]` holding `c`, or `hi` when there is none.
pub fn find_char(s: &[char], c: char, from: usize, hi: usize) -> (r: usize)
    requires
        from <= hi <= s@.len(),
    ensures
        r == next_char(s@, c, from as int, hi as int),
        from <= r <= hi,
        r < hi ==> s@[r as int] == c,
        forall|k: int| from <= k < r ==> s@[k] != c,
{
    proof {
        lemma_next_char(s@, c, from as int, hi as int);
    }
    let mut i = from;
    while i < hi
        invariant
            from <= i <= hi <= s@.len(),
            next_char(s@, c, i as int, hi as int) == next_char(s@, c, from as int, hi as int),
            forall|k: int| from <= k < i ==> s@[k] != c,
        decreases hi - i,
    {
        if s[i] == c {
            return i;
        }
        i += 1;
    }
    i
}

/// The last index in `s[lo..hi]` holding `c`.
pub open spec fn last_char(s: Seq<char>, c: char, lo: int, hi: int) -> Option<int>
    decreases hi - lo,
{
    if hi <= lo {
        None
    } else if s[hi - 1] == c {
        Some(hi - 1)
    } else {
        last_char(s, c, lo, hi - 1)
    }
}

/// The last index of `s` holding `c`.
pub fn find_last_char(s: &[char], c: char) -> (r: Option<usize>)
    ensures
        match r {
            Some(i) => last_char(s@, c, 0, s@.len() as int) == Some(i as int) && i < s@.len(),
            None => last_char(s@, c, 0, s@.len() as int) is None,
        },
{
    let mut j = s.len();
    while j > 0
        invariant
            j <= s@.len(),
            last_char(s@, c, 0, s@.len() as int) == last_char(s@, c, 0, j as int),
        decreases j,
    {
        if s[j - 1] == c {
            return Some(j - 1);
        }
        j -= 1;
    }
    None
}

/// The first position at or after `from` where `p` occurs in `s`.
pub open spec fn find_seq_from(s: Seq<char>, p: Seq<char>, from: int) -> Option<int>
    decreases s.len() + 1 - from,
{
    if from < 0 || from + p.len() > s.len() {
        None
    } else if matches_at(s, from, p) {
        Some(from)
    } else {
        find_seq_from(s, p, from + 1)
    }
}

/// A found occurrence lies inside `s`.
pub proof fn lemma_find_seq_from(s: Seq<char>, p: Seq<char>, from: int)
    ensures
        match find_seq_from(s, p, from) {
            Some(k) => from <= k && k + p.len() <= s.len() && matches_at(s, k, p),
            None => true,
        },
    decreases s.len() + 1 - from,
{
    if !(from < 0 || from + p.len() > s.len()) && !matches_at(s, from, p) {
        lemma_find_seq_from(s, p, from + 1);
    }
}

/// The first position at or after `from` where `p` occurs in `s` (`str::find`).
pub fn find_seq(s: &[char], p: &[char], from: usize) -> (r: Option<usize>)
    ensures
        match r {
            Some(k) => find_seq_from(s@, p@, from as int) == Some(k as int),
            None => find_seq_from(s@, p@, from as int) is None,
        },
{
    if p.len() > s.len() || from > s.len() - p.len() {
        return None;
    }
    let last = s.len() - p.len();
    let mut i = from;
    while i <= last
        invariant
            from <= i,
            last == s@.len() - p@.len(),
            find_seq_from(s@, p@, i as int) == find_seq_from(s@, p@, from as int),
        decreases last + 1 - i,
    {
        if starts_at(s, i, p) {
            return Some(i);
        }
        if i == last {
            assert(find_seq_from(s@, p@, i + 1) == None::<int>);
            return None;
        }
        i += 1;
    }
    None
}

// ---------------------------------------------------------------- trimming

/// Index of the first non-whitespace char at or after `i` (or `s.len()`).
pub open spec fn skip_ws(s: Seq<char>, i: int) -> int
    decreases s.len() - i,
{
    if i >= s.len() || !is_ws(s[i]) {
        i
    } else {
        skip_ws(s, i + 1)
    }
}

/// Index just past the last non-whitespace char before `j` (or `0`).
pub open spec fn skip_ws_back(s: Seq<char>, j: int) -> int
    decreases j,
{
    if j <= 0 || !is_ws(s[j - 1]) {
        j
    } else {
        skip_ws_back(s, j - 1)
    }
}

/// `str::trim_start`.
pub open spec fn trim_start(s: Seq<char>) -> Seq<char> {
    s.subrange(skip_ws(s, 0), s.len() as int)
}

/// `str::trim_end`.
pub open spec fn trim_end(s: Seq<char>) -> Seq<char> {
    s.subrange(0, skip_ws_back(s, s.len() as int))
}

/// `str::trim`.
pub open spec fn trim(s: Seq<char>) -> Seq<char> {
    trim_end(trim_start(s))
}

pub proof fn lemma_skip_ws(s: Seq<char>, i: int)
    requires
        0 <= i <= s.len(),
    ensures
        i <= skip_ws(s, i) <= s.len(),
    decreases s.len() - i,
{
    if i < s.len() && is_ws(s[i]) {
        lemma_skip_ws(s, i + 1);
    }
}

pub proof fn lemma_skip_ws_back(s: Seq<char>, j: int)
    requires
        0 <= j <= s.len(),
    ensures
        0 <= skip_ws_back(s, j) <= j,
    decreases j,
{
    if j > 0 && is_ws(s[j - 1]) {
        lemma_skip_ws_back(s, j - 1);
    }
}

/// Index of the first non-whitespace char of `s[lo..hi]`, or `hi`.
pub fn skip_ws_exec(s: &[char], lo: usize, hi: usize) -> (r: usize)
    requires
        lo <= hi <= s@.len(),
    ensures
        r == skip_ws(s@.subrange(0, hi as int), lo as int),
        lo <= r <= hi,
{
    let ghost t = s@.subrange(0, hi as int);
    proof {
        lemma_skip_ws(t, lo as int);
    }
    let mut i = lo;
    while i < hi && is_whitespace(s[i])
        invariant
            lo <= i <= hi <= s@.len(),
            t == s@.subrange(0, hi as int),
            skip_ws(t, i as int) == skip_ws(t, lo as int),
        decreases hi - i,
    {
        i += 1;
    }
    i
}

/// Index just past the last non-whitespace char of `s[lo..hi]`, or `lo`.
pub fn skip_ws_back_exec(s: &[char], lo: usize, hi: usize) -> (r: usize)
    requires
        lo <= hi <= s@.len(),
    ensures
        r == lo + skip_ws_back(s@.subrange(lo as int, hi as int), hi - lo),
        lo <= r <= hi,
{
    let ghost t = s@.subrange(lo as int, hi as int);
    proof {
        lemma_skip_ws_back(t, hi - lo);
    }
    let mut j = hi;
    while j > lo && is_whitespace(s[j - 1])
        invariant
            lo <= j <= hi <= s@.len(),
            t == s@.subrange(lo as int, hi as int),
            skip_ws_back(t, j - lo) == skip_ws_back(t, hi - lo),
        decreases j,
    {
        j -= 1;
    }
    j
}

/// The bounds of `trim(s[lo..hi])` inside `s`.
pub fn trim_bounds(s: &[char], lo: usize, hi: usize) -> (r: (usize, usize))
    requires
        lo <= hi <= s@.len(),
    ensures
        lo <= r.0 <= r.1 <= hi,
        s@.subrange(r.0 as int, r.1 as int) == trim(s@.subrange(lo as int, hi as int)),
{
    let ghost t = s@.subrange(lo as int, hi as int);
    let a = skip_ws_exec(s, lo, hi);
    proof {
        lemma_skip_ws_shift(s@.subrange(0, hi as int), lo as int);
    }
    let b = skip_ws_back_exec(s, a, hi);
    proof {
        let ts = trim_start(t);
        assert(s@.subrange(0, hi as int).subrange(lo as int, hi as int) =~= t);
        assert(ts == s@.subrange(a as int, hi as int));
        assert(trim(t) == ts.subrange(0, skip_ws_back(ts, ts.len() as int)));
        assert(s@.subrange(a as int, b as int) =~= trim(t));
    }
    (a, b)
}

proof fn lemma_skip_ws_shift(u: Seq<char>, lo: int)
    requires
        0 <= lo <= u.len(),
    ensures
        skip_ws(u.subrange(lo, u.len() as int), 0) + lo == skip_ws(u, lo),
{
    lemma_skip_ws_suffix(u, lo, 0);
}

proof fn lemma_skip_ws_suffix(u: Seq<char>, lo: int, j: int)
    requires
        0 <= lo <= u.len(),
        0 <= j <= u.len() - lo,
    ensures
        skip_ws(u.subrange(lo, u.len() as int), j) + lo == skip_ws(u, lo + j),
    decreases u.len() - lo - j,
{
    let t = u.subrange(lo, u.len() as int);
    if j < t.len() {
        assert(t[j] == u[lo + j]);
        if is_ws(t[j]) {
            lemma_skip_ws_suffix(u, lo, j + 1);
        }
    }
}

/// `str::trim`, on a whole string.
pub fn trim_str(s: &str) -> (out: String)
    ensures
        out@ == trim(s@),
{
    let v = chars_of(s);
    let (a, b) = trim_bounds(&v, 0, v.len());
    assert(v@.subrange(0, v@.len() as int) == v@);
    string_of(&v, a, b)
}

// ---------------------------------------------------------------- lines

/// The spans `(start, end)` of the lines of `s` from offset `start` on, as
/// `str::lines` yields them: split after each `\n`, the `\n` and a `\r`
/// just before it dropped, no empty line after a final `\n`.
pub open spec fn line_spans_from(s: Seq<char>, start: int) -> Seq<(int, int)>
    decreases s.len() - start,
{
    if start < 0 || start >= s.len() {
        seq![]
    } else {
        let e = next_char(s, '\n', start, s.len() as int);
        let end = if e < s.len() && e > start && s[e - 1] == '\r' {
            e - 1
        } else {
            e
        };
        if e >= s.len() || e + 1 <= start {
            seq![(start, end)]
        } else {
            seq![(start, end)] + line_spans_from(s, e + 1)
        }
    }
}

/// The lines of `s` (`str::lines`).
pub open spec fn lines(s: Seq<char>) -> Seq<Seq<char>> {
    line_spans_from(s, 0).map_values(|r: (int, int)| s.subrange(r.0, r.1))
}

pub proof fn lemma_line_spans(s: Seq<char>, start: int)
    requires
        0 <= start,
    ensures
        forall|k: int|
            0 <= k < line_spans_from(s, start).len() ==> start <= (#[trigger] line_spans_from(
                s,
                start,
            )[k]).0 <= line_spans_from(s, start)[k].1 <= s.len(),
    decreases s.len() - start,
{
    if start < s.len() {
        lemma_next_char(s, '\n', start, s.len() as int);
        let e = next_char(s, '\n', start, s.len() as int);
        if e < s.len() {
            lemma_line_spans(s, e + 1);
        }
        let all = line_spans_from(s, start);
        assert forall|k: int| 0 <= k < all.len() implies start <= (#[trigger] all[k]).0 <= all[k].1
            <= s.len() by {
            if k > 0 {
                assert(all[k] == line_spans_from(s, e + 1)[k - 1]);
            }
        }
    }
}

/// The spans of the lines of `s` (`str::lines`).
pub fn line_spans(s: &[char]) -> (out: Vec<(usize, usize)>)
    ensures
        out@.len() == line_spans_from(s@, 0).len(),
        forall|k: int|
            0 <= k < out@.len() ==> (#[trigger] out@[k]).0 as int == line_spans_from(s@, 0)[k].0
                && out@[k].1 as int == line_spans_from(s@, 0)[k].1,
        forall|k: int| 0 <= k < out@.len() ==> (#[trigger] out@[k]).0 <= out@[k].1 <= s@.len(),
{
    let mut out: Vec<(usize, usize)> = Vec::new();
    let mut start: usize = 0;
    let ghost whole = line_spans_from(s@, 0);
    proof {
        lemma_line_spans(s@, 0);
    }
    while start < s.len()
        invariant
            start <= s@.len() || whole.len() == out@.len(),
            whole == line_spans_from(s@, 0),
            forall|k: int|
                0 <= k < line_spans_from(s@, start as int).len() ==> start <= (
                #[trigger] line_spans_from(s@, start as int)[k]).0 <= line_spans_from(
                    s@,
                    start as int,
                )[k].1 <= s@.len(),
            forall|k: int|
                0 <= k < out@.len() ==> (#[trigger] out@[k]).0 <= out@[k].1 <= s@.len(),
            whole == out@.map_values(|r: (usize, usize)| (r.0 as int, r.1 as int))
                + line_spans_from(s@, start as int),
        decreases s@.len() - start,
    {
        let e = find_char(s, '\n', start, s.len());
        let end = if e < s.len() && e > start && s[e - 1] == '\r' {
            e - 1
        } else {
            e
        };
        proof {
            lemma_line_spans(s@, e + 1);
            let rest = line_spans_from(s@, e + 1);
            assert(line_spans_from(s@, start as int) == seq![(start as int, end as int)] + rest);
            assert(out@.push((start, end)).map_values(
                |r: (usize, usize)| (r.0 as int, r.1 as int),
            ) =~= out@.map_values(|r: (usize, usize)| (r.0 as int, r.1 as int)).push(
                (start as int, end as int),
            ));
        }
        out.push((start, end));
        if e >= s.len() {
            proof {
                assert(line_spans_from(s@, e + 1) =~= Seq::<(int, int)>::empty());
                assert(whole =~= out@.map_values(|r: (usize, usize)| (r.0 as int, r.1 as int)));
            }
            return out;
        }
        start = e + 1;
    }
    proof {
        assert(line_spans_from(s@, start as int) =~= Seq::<(int, int)>::empty());
        assert(whole =~= out@.map_values(|r: (usize, usize)| (r.0 as int, r.1 as int)));
    }
    out
}


/// The views of a sequence of strings.
pub open spec fn views(v: Seq<String>) -> Seq<Seq<char>> {
    v.map_values(|x: String| x@)
}

/// The views of a sequence of char vectors.
pub open spec fn char_views(v: Seq<Vec<char>>) -> Seq<Seq<char>> {
    v.map_values(|x: Vec<char>| x@)
}

/// The lines of `s` (`str::lines`), as char vectors.
pub fn line_vecs(s: &str) -> (r: Vec<Vec<char>>)
    ensures
        char_views(r@) == lines(s@),
{
    let c = chars_of(s);
    let spans = line_spans(&c);
    let mut r: Vec<Vec<char>> = Vec::new();
    let mut k: usize = 0;
    while k < spans.len()
        invariant
            k <= spans@.len(),
            c@ == s@,
            spans@.len() == line_spans_from(c@, 0).len(),
            forall|j: int| 0 <= j < spans@.len() ==> (#[trigger] spans@[j]).0 as int == line_spans_from(c@, 0)[j].0 && spans@[j].1 as int == line_spans_from(c@, 0)[j].1,
            forall|j: int| 0 <= j < spans@.len() ==> (#[trigger] spans@[j]).0 <= spans@[j].1 <= c@.len(),
            char_views(r@) == lines(s@).subrange(0, k as int),
        decreases spans@.len() - k,
    {
        let line = copy_range(&c, spans[k].0, spans[k].1);
        assert(lines(s@)[k as int] == line@);
        let ghost before = r@;
        r.push(line);
        assert(char_views(r@) =~= char_views(before).push(line@));
        assert(lines(s@).subrange(0, k + 1) =~= lines(s@).subrange(0, k as int).push(lines(s@)[k as int]));
        k += 1;
    }
    assert(lines(s@).subrange(0, k as int) =~= lines(s@));
    r
}

// ---------------------------------------------------------------- words

/// The first index in `s[from..hi]` holding whitespace, or `hi`.
pub open spec fn next_ws(s: Seq<char>, from: int, hi: int) -> int
    decreases hi - from,
{
    if from >= hi {
        hi
    } else if is_ws(s[from]) {
        from
    } else {
        next_ws(s, from + 1, hi)
    }
}

pub proof fn lemma_next_ws(s: Seq<char>, from: int, hi: int)
    requires
        0 <= from <= hi <= s.len(),
    ensures
        from <= next_ws(s, from, hi) <= hi,
        next_ws(s, from, hi) < hi ==> is_ws(s[next_ws(s, from, hi)]),
        forall|k: int| from <= k < next_ws(s, from, hi) ==> !is_ws(s[k]),
    decreases hi - from,
{
    if from < hi && !is_ws(s[from]) {
        lemma_next_ws(s, from + 1, hi);
    }
}

pub proof fn lemma_skip_ws_bounds(s: Seq<char>, i: int)
    requires
        0 <= i <= s.len(),
    ensures
        i <= skip_ws(s, i) <= s.len(),
        skip_ws(s, i) < s.len() ==> !is_ws(s[skip_ws(s, i)]),
        forall|k: int| i <= k < skip_ws(s, i) ==> is_ws(s[k]),
    decreases s.len() - i,
{
    if i < s.len() && is_ws(s[i]) {
        lemma_skip_ws_bounds(s, i + 1);
    }
}

/// The spans of the whitespace-separated words of `s` from offset `i` on
/// (`str::split_whitespace`).
pub open spec fn word_spans_from(s: Seq<char>, i: int) -> Seq<(int, int)>
    decreases s.len() - i,
{
    if i < 0 || i > s.len() {
        seq![]
    } else {
        let a = skip_ws(s, i);
        if a >= s.len() {
            seq![]
        } else {
            let b = next_ws(s, a, s.len() as int);
            if b <= i || b > s.len() {
                seq![(a, b)]
            } else {
                seq![(a, b)] + word_spans_from(s, b)
            }
        }
    }
}

/// The words of `s` (`str::split_whitespace`).
pub open spec fn words(s: Seq<char>) -> Seq<Seq<char>> {
    word_spans_from(s, 0).map_values(|r: (int, int)| s.subrange(r.0, r.1))
}

pub proof fn lemma_word_spans(s: Seq<char>, i: int)
    requires
        0 <= i <= s.len(),
    ensures
        forall|k: int|
            0 <= k < word_spans_from(s, i).len() ==> i <= (#[trigger] word_spans_from(s, i)[k]).0
                < word_spans_from(s, i)[k].1 <= s.len(),
    decreases s.len() - i,
{
    lemma_skip_ws_bounds(s, i);
    let a = skip_ws(s, i);
    if a < s.len() {
        lemma_next_ws(s, a, s.len() as int);
        let b = next_ws(s, a, s.len() as int);
        assert(b > a) by {
            if b == a {
                assert(is_ws(s[a]));
            }
        }
        lemma_word_spans(s, b);
        let all = word_spans_from(s, i);
        assert forall|k: int| 0 <= k < all.len() implies i <= (#[trigger] all[k]).0 < all[k].1
            <= s.len() by {
            if k > 0 {
                assert(all[k] == word_spans_from(s, b)[k - 1]);
            }
        }
    }
}

/// The spans of the words of `s` (`str::split_whitespace`).
pub fn word_spans(s: &[char]) -> (out: Vec<(usize, usize)>)
    ensures
        out@.len() == word_spans_from(s@, 0).len(),
        forall|k: int|
            0 <= k < out@.len() ==> (#[trigger] out@[k]).0 as int == word_spans_from(s@, 0)[k].0
                && out@[k].1 as int == word_spans_from(s@, 0)[k].1,
        forall|k: int| 0 <= k < out@.len() ==> (#[trigger] out@[k]).0 < out@[k].1 <= s@.len(),
{
    let mut out: Vec<(usize, usize)> = Vec::new();
    let mut i: usize = 0;
    let ghost whole = word_spans_from(s@, 0);
    proof {
        lemma_word_spans(s@, 0);
    }
    loop
        invariant
            i <= s@.len(),
            whole == word_spans_from(s@, 0),
            forall|k: int| 0 <= k < out@.len() ==> (#[trigger] out@[k]).0 < out@[k].1 <= s@.len(),
            whole == out@.map_values(|r: (usize, usize)| (r.0 as int, r.1 as int))
                + word_spans_from(s@, i as int),
        decreases s@.len() - i,
    {
        let a = skip_ws_exec(s, i, s.len());
        proof {
            assert(s@.subrange(0, s@.len() as int) == s@);
            lemma_skip_ws_bounds(s@, i as int);
        }
        if a >= s.len() {
            proof {
                assert(word_spans_from(s@, i as int) =~= Seq::<(int, int)>::empty());
                assert(whole =~= out@.map_values(|r: (usize, usize)| (r.0 as int, r.1 as int)));
            }
            return out;
        }
        let mut b = a;
        while b < s.len() && !is_whitespace(s[b])
            invariant
                a <= b <= s@.len(),
                next_ws(s@, b as int, s@.len() as int) == next_ws(s@, a as int, s@.len() as int),
            decreases s@.len() - b,
        {
            b += 1;
        }
        proof {
            lemma_next_ws(s@, a as int, s@.len() as int);
            assert(b > a);
            lemma_word_spans(s@, b as int);
            assert(word_spans_from(s@, i as int) == seq![(a as int, b as int)] + word_spans_from(
                s@,
                b as int,
            ));
            assert(out@.push((a, b)).map_values(|r: (usize, usize)| (r.0 as int, r.1 as int))
                =~= out@.map_values(|r: (usize, usize)| (r.0 as int, r.1 as int)).push(
                (a as int, b as int),
            ));
        }
        out.push((a, b));
        i = b;
    }
}

/// The words of `s` (`str::split_whitespace`), as char vectors.
pub fn word_vecs(s: &[char]) -> (r: Vec<Vec<char>>)
    ensures
        char_views(r@) == words(s@),
{
    let spans = word_spans(s);
    let mut r: Vec<Vec<char>> = Vec::new();
    let mut k: usize = 0;
    while k < spans.len()
        invariant
            k <= spans@.len(),
            spans@.len() == word_spans_from(s@, 0).len(),
            forall|j: int| 0 <= j < spans@.len() ==> (#[trigger] spans@[j]).0 as int == word_spans_from(s@, 0)[j].0 && spans@[j].1 as int == word_spans_from(s@, 0)[j].1,
            forall|j: int| 0 <= j < spans@.len() ==> (#[trigger] spans@[j]).0 < spans@[j].1 <= s@.len(),
            char_views(r@) == words(s@).subrange(0, k as int),
        decreases spans@.len() - k,
    {
        let w = copy_range(s, spans[k].0, spans[k].1);
        assert(words(s@)[k as int] == w@);
        let ghost before = r@;
        r.push(w);
        assert(char_views(r@) =~= char_views(before).push(w@));
        assert(words(s@).subrange(0, k + 1) =~= words(s@).subrange(0, k as int).push(words(s@)[k as int]));
        k += 1;
    }
    assert(words(s@).subrange(0, k as int) =~= words(s@));
    r
}

// ---------------------------------------------------------------- splitting

/// The spans of the pieces of `s` between occurrences of `c`, from offset
/// `start` on (`str::split` with a `char` pattern).
pub open spec fn split_spans_from(s: Seq<char>, c: char, start: int) -> Seq<(int, int)>
    decreases s.len() - start,
{
    let e = next_char(s, c, start, s.len() as int);
    if start < 0 || start > s.len() {
        seq![]
    } else if e >= s.len() || e < start {
        seq![(start, s.len() as int)]
    } else {
        seq![(start, e)] + split_spans_from(s, c, e + 1)
    }
}

pub proof fn lemma_split_spans(s: Seq<char>, c: char, start: int)
    requires
        0 <= start <= s.len(),
    ensures
        split_spans_from(s, c, start).len() >= 1,
        forall|k: int|
            0 <= k < split_spans_from(s, c, start).len() ==> start <= (
            #[trigger] split_spans_from(s, c, start)[k]).0 <= split_spans_from(s, c, start)[k].1
                <= s.len(),
        forall|k: int|
            0 <= k < split_spans_from(s, c, start).len() ==> forall|j: int|
                (#[trigger] split_spans_from(s, c, start)[k]).0 <= j < split_spans_from(
                    s,
                    c,
                    start,
                )[k].1 ==> s[j] != c,
    decreases s.len() - start,
{
    lemma_next_char(s, c, start, s.len() as int);
    let e = next_char(s, c, start, s.len() as int);
    if e < s.len() {
        lemma_split_spans(s, c, e + 1);
        let all = split_spans_from(s, c, start);
        assert forall|k: int| 0 <= k < all.len() implies start <= (#[trigger] all[k]).0
            <= all[k].1 <= s.len() && forall|j: int| all[k].0 <= j < all[k].1 ==> s[j] != c by {
            if k > 0 {
                assert(all[k] == split_spans_from(s, c, e + 1)[k - 1]);
            }
        }
    }
}

/// The spans of the pieces of `s` between occurrences of `c` (`str::split`).
pub fn split_spans(s: &[char], c: char) -> (out: Vec<(usize, usize)>)
    ensures
        out@.len() == split_spans_from(s@, c, 0).len(),
        forall|k: int|
            0 <= k < out@.len() ==> (#[trigger] out@[k]).0 as int == split_spans_from(s@, c, 0)[k].0
                && out@[k].1 as int == split_spans_from(s@, c, 0)[k].1,
        forall|k: int| 0 <= k < out@.len() ==> (#[trigger] out@[k]).0 <= out@[k].1 <= s@.len(),
{
    let mut out: Vec<(usize, usize)> = Vec::new();
    let mut start: usize = 0;
    let ghost whole = split_spans_from(s@, c, 0);
    loop
        invariant
            start <= s@.len(),
            whole == split_spans_from(s@, c, 0),
            forall|k: int| 0 <= k < out@.len() ==> (#[trigger] out@[k]).0 <= out@[k].1 <= s@.len(),
            whole == out@.map_values(|r: (usize, usize)| (r.0 as int, r.1 as int))
                + split_spans_from(s@, c, start as int),
        decreases s@.len() - start,
    {
        let e = find_char(s, c, start, s.len());
        proof {
            assert(out@.push((start, e)).map_values(|r: (usize, usize)| (r.0 as int, r.1 as int))
                =~= out@.map_values(|r: (usize, usize)| (r.0 as int, r.1 as int)).push(
                (start as int, e as int),
            ));
        }
        out.push((start, e));
        if e >= s.len() {
            proof {
                assert(whole =~= out@.map_values(|r: (usize, usize)| (r.0 as int, r.1 as int)));
            }
            return out;
        }
        proof {
            assert(split_spans_from(s@, c, start as int) == seq![(start as int, e as int)]
                + split_spans_from(s@, c, e + 1));
        }
        start = e + 1;
    }
}

/// Removes `p` from the end of `s` as many times as it occurs there
/// (`str::trim_end_matches`).
pub open spec fn strip_all_suffix(s: Seq<char>, p: Seq<char>) -> Seq<char>
    decreases s.len(),
{
    if p.len() > 0 && p.is_suffix_of(s) {
        strip_all_suffix(s.subrange(0, s.len() - p.len()), p)
    } else {
        s
    }
}

/// Removes `c` from the start of `s` as many times as it occurs there
/// (`str::trim_start_matches` with a `char`).
pub open spec fn strip_all_lead(s: Seq<char>, c: char) -> Seq<char>
    decreases s.len(),
{
    if s.len() > 0 && s[0] == c {
        strip_all_lead(s.drop_first(), c)
    } else {
        s
    }
}

/// `str::strip_prefix`.
pub open spec fn strip_prefix(s: Seq<char>, p: Seq<char>) -> Option<Seq<char>> {
    if p.is_prefix_of(s) {
        Some(s.subrange(p.len() as int, s.len() as int))
    } else {
        None
    }
}

/// `str::strip_suffix`.
pub open spec fn strip_suffix(s: Seq<char>, p: Seq<char>) -> Option<Seq<char>> {
    if p.is_suffix_of(s) {
        Some(s.subrange(0, s.len() - p.len()))
    } else {
        None
    }
}

/// The end of `s[lo..hi]` once every trailing `p` is removed.
pub fn strip_all_suffix_exec(s: &[char], lo: usize, hi: usize, p: &[char]) -> (r: usize)
    requires
        lo <= hi <= s@.len(),
    ensures
        lo <= r <= hi,
        s@.subrange(lo as int, r as int) == strip_all_suffix(s@.subrange(lo as int, hi as int), p@),
{
    let mut end = hi;
    while p.len() > 0 && p.len() <= end - lo && starts_at(s, end - p.len(), p)
        invariant
            lo <= end <= hi <= s@.len(),
            strip_all_suffix(s@.subrange(lo as int, end as int), p@) == strip_all_suffix(
                s@.subrange(lo as int, hi as int),
                p@,
            ),
        decreases end,
    {
        proof {
            let t = s@.subrange(lo as int, end as int);
            assert(p@.is_suffix_of(t)) by {
                assert(t.subrange(t.len() - p@.len(), t.len() as int) =~= s@.subrange(
                    end - p@.len(),
                    end as int,
                ));
            }
            assert(t.subrange(0, t.len() - p@.len()) =~= s@.subrange(lo as int, end - p@.len()));
        }
        end = end - p.len();
    }
    proof {
        let t = s@.subrange(lo as int, end as int);
        if p@.len() > 0 && p@.is_suffix_of(t) {
            assert(t.subrange(t.len() - p@.len(), t.len() as int) =~= s@.subrange(
                end - p@.len(),
                end as int,
            ));
        }
    }
    end
}

/// The start of `s[lo..hi]` once every leading `c` is removed.
pub fn strip_all_lead_exec(s: &[char], lo: usize, hi: usize, c: char) -> (r: usize)
    requires
        lo <= hi <= s@.len(),
    ensures
        lo <= r <= hi,
        s@.subrange(r as int, hi as int) == strip_all_lead(s@.subrange(lo as int, hi as int), c),
{
    let mut i = lo;
    while i < hi && s[i] == c
        invariant
            lo <= i <= hi <= s@.len(),
            strip_all_lead(s@.subrange(i as int, hi as int), c) == strip_all_lead(
                s@.subrange(lo as int, hi as int),
                c,
            ),
        decreases hi - i,
    {
        assert(s@.subrange(i as int, hi as int).drop_first() =~= s@.subrange(i + 1, hi as int));
        i += 1;
    }
    i
}

// ---------------------------------------------------------------- bytes

/// The length of `c` in UTF-8 (`char::len_utf8`).
pub open spec fn utf8_len(c: char) -> int {
    let u = c as u32;
    if u < 0x80 {
        1
    } else if u < 0x800 {
        2
    } else if u < 0x10000 {
        3
    } else {
        4
    }
}

/// The length of `c` in UTF-16 code units (`char::len_utf16`).
pub open spec fn utf16_len(c: char) -> int {
    if (c as u32) < 0x10000 {
        1
    } else {
        2
    }
}

/// The number of UTF-8 bytes of `s[..k]`.
pub open spec fn utf8_prefix(s: Seq<char>, k: int) -> int
    decreases k,
{
    if k <= 0 {
        0
    } else {
        utf8_prefix(s, k - 1) + utf8_len(s[k - 1])
    }
}

/// The char index at which `s` has exactly `n` bytes before it, if `n` is a
/// char boundary of `s` (the char-level reading of a byte range `get`).
pub open spec fn byte_boundary(s: Seq<char>, n: int) -> Option<int> {
    if exists|k: int| 0 <= k <= s.len() && utf8_prefix(s, k) == n {
        Some(choose|k: int| 0 <= k <= s.len() && utf8_prefix(s, k) == n)
    } else {
        None
    }
}

pub proof fn lemma_utf8_prefix_mono(s: Seq<char>, j: int, k: int)
    requires
        0 <= j <= k,
    ensures
        utf8_prefix(s, j) + (k - j) <= utf8_prefix(s, k),
    decreases k - j,
{
    if j < k {
        lemma_utf8_prefix_mono(s, j, k - 1);
    }
}

/// The char index of byte offset `n` of `s`, when `n` is a char boundary.
pub fn byte_to_char(s: &[char], n: usize) -> (r: Option<usize>)
    ensures
        match byte_boundary(s@, n as int) {
            Some(k) => r == Some(k as usize),
            None => r is None,
        },
{
    let mut k: usize = 0;
    let mut bytes: usize = 0;
    while k < s.len() && bytes < n
        invariant
            k <= s@.len(),
            bytes == utf8_prefix(s@, k as int),
            bytes <= n,
        decreases s@.len() - k,
    {
        let c = s[k];
        let l: usize = if (c as u32) < 0x80 {
            1
        } else if (c as u32) < 0x800 {
            2
        } else if (c as u32) < 0x10000 {
            3
        } else {
            4
        };
        if l > n - bytes {
            proof {
                assert forall|j: int| 0 <= j <= s@.len() implies utf8_prefix(s@, j) != n by {
                    if j <= k {
                        lemma_utf8_prefix_mono(s@, j, k as int);
                        if utf8_prefix(s@, j) == n {
                            lemma_utf8_prefix_mono(s@, j, k as int);
                        }
                        if j < k {
                            lemma_utf8_prefix_mono(s@, j + 1, k as int);
                            assert(utf8_prefix(s@, j + 1) == utf8_prefix(s@, j) + utf8_len(s@[j]));
                        }
                    } else {
                        lemma_utf8_prefix_mono(s@, k + 1, j);
                    }
                }
            }
            return None;
        }
        bytes = bytes + l;
        k += 1;
    }
    if bytes == n {
        proof {
            assert(utf8_prefix(s@, k as int) == n);
            lemma_byte_boundary_unique(s@, k as int, n as int);
        }
        Some(k)
    } else {
        proof {
            assert forall|j: int| 0 <= j <= s@.len() implies utf8_prefix(s@, j) != n by {
                if j <= k {
                    lemma_utf8_prefix_mono(s@, j, k as int);
                }
            }
        }
        None
    }
}

proof fn lemma_byte_boundary_unique(s: Seq<char>, k: int, n: int)
    requires
        0 <= k <= s.len(),
        utf8_prefix(s, k) == n,
    ensures
        byte_boundary(s, n) == Some(k),
{
    let j = choose|j: int| 0 <= j <= s.len() && utf8_prefix(s, j) == n;
    if j < k {
        lemma_utf8_prefix_mono(s, j + 1, k);
        assert(utf8_prefix(s, j + 1) == utf8_prefix(s, j) + utf8_len(s[j]));
    } else if j > k {
        lemma_utf8_prefix_mono(s, k + 1, j);
        assert(utf8_prefix(s, k + 1) == utf8_prefix(s, k) + utf8_len(s[k]));
    }
}

// ---------------------------------------------------------------- repetition

/// `s` repeated `n` times.
pub open spec fn repeat(s: Seq<char>, n: nat) -> Seq<char>
    decreases n,
{
    if n == 0 {
        seq![]
    } else {
        repeat(s, (n - 1) as nat) + s
    }
}

/// Appends `n` copies of `pat`.
pub fn push_repeat(out: &mut Vec<char>, pat: &[char], n: u64)
    ensures
        final(out)@ == old(out)@ + repeat(pat@, n as nat),
{
    let mut i: u64 = 0;
    proof {
        assert(old(out)@ + repeat(pat@, 0) =~= old(out)@);
    }
    while i < n
        invariant
            i <= n,
            out@ == old(out)@ + repeat(pat@, i as nat),
        decreases n - i,
    {
        extend_chars(out, pat);
        i = i + 1;
        proof {
            assert(repeat(pat@, i as nat) == repeat(pat@, (i - 1) as nat) + pat@);
            assert(out@ =~= old(out)@ + repeat(pat@, i as nat));
        }
    }
}

} // verus!
