//! Text buffers: how a file's bytes become `\n`-only text and back (line
//! ending, BOM and byte encoding), manual folds, and the buffer itself with
//! its undo/redo history.
use vstd::prelude::*;
use vstd::utf8::{decode_utf8, valid_utf8};
use crate::text::{chars_of, string_from, push_char, extend_chars};
use crate::rope::{rope_text, num_lines, line_start_of, line_text_of, line_of, lemma_line_of_nonneg, lemma_line_start, lemma_line_of_mono, lemma_line_of_strict, rope_from_str, rope_clone, rope_eq, rope_len_chars, rope_char, rope_len_lines, rope_line_to_char, rope_char_to_line, rope_line, rope_slice, rope_to_string, rope_insert, rope_insert_char, rope_remove, rope_len_bytes, rope_char_to_byte, rope_line_to_byte};
use ropey::Rope;

verus! {

/// The line-ending convention of a file on disk. The in-memory text always
/// holds `\n`-only text; the format is recorded on load and re-applied on
/// save so a DOS/old-Mac file round-trips without its endings being flipped.
#[derive(Clone, Copy, Debug, PartialEq, Eq, Structural)]
pub enum FileFormat {
    Unix,
    Dos,
    Mac,
}

impl Default for FileFormat {
    fn default() -> (r: Self)
        ensures
            r == FileFormat::Unix,
    {
        FileFormat::Unix
    }
}

/// The name of a line-ending format.
pub open spec fn format_name(f: FileFormat) -> Seq<char> {
    match f {
        FileFormat::Unix => "unix"@,
        FileFormat::Dos => "dos"@,
        FileFormat::Mac => "mac"@,
    }
}

/// The line ending of a format.
/// The format a name gives: `unix`, `dos` or `mac`, exactly.
pub open spec fn parse_format(s: Seq<char>) -> Option<FileFormat> {
    if s == "unix"@ {
        Some(FileFormat::Unix)
    } else if s == "dos"@ {
        Some(FileFormat::Dos)
    } else if s == "mac"@ {
        Some(FileFormat::Mac)
    } else {
        None
    }
}

/// A format's name reads back as that format, and only the three names
/// read as a format.
pub proof fn law_format_names_parse_back(f: FileFormat, s: Seq<char>)
    ensures
        parse_format(format_name(f)) == Some(f),
        parse_format(s) is Some <==> (s == "unix"@ || s == "dos"@ || s == "mac"@),
{
    reveal_strlit("unix");
    reveal_strlit("dos");
    reveal_strlit("mac");
    assert("unix"@.len() != "dos"@.len());
    assert("unix"@.len() != "mac"@.len());
    assert("dos"@[0] != "mac"@[0]);
}

pub open spec fn eol_spec(f: FileFormat) -> Seq<char> {
    match f {
        FileFormat::Unix => "\n"@,
        FileFormat::Dos => "\r\n"@,
        FileFormat::Mac => "\r"@,
    }
}

impl FileFormat {
    /// The format's name, as `:set fileformat` shows it.
    pub fn name(self) -> (r: &'static str)
        ensures
            r@ == format_name(self),
    {
        match self {
            FileFormat::Unix => "unix",
            FileFormat::Dos => "dos",
            FileFormat::Mac => "mac",
        }
    }

    /// The format with the given name.
    pub fn parse(s: &str) -> (r: Option<FileFormat>)
        ensures
            r == parse_format(s@),
    {
        let v = chars_of(s);
        if crate::text::chars_eq(&v, &chars_of("unix")) {
            Some(FileFormat::Unix)
        } else if crate::text::chars_eq(&v, &chars_of("dos")) {
            Some(FileFormat::Dos)
        } else if crate::text::chars_eq(&v, &chars_of("mac")) {
            Some(FileFormat::Mac)
        } else {
            None
        }
    }

    /// The format's line ending.
    pub fn eol(self) -> (r: &'static str)
        ensures
            r@ == eol_spec(self),
    {
        match self {
            FileFormat::Unix => "\n",
            FileFormat::Dos => "\r\n",
            FileFormat::Mac => "\r",
        }
    }
}

/// Whether `s` holds a `\r` immediately followed by `\n`.
pub open spec fn has_crlf(s: Seq<char>) -> bool {
    exists|i: int| 0 <= i < s.len() - 1 && #[trigger] s[i] == '\r' && s[i + 1] == '\n'
}

/// `s[i..]` with every `\r\n` replaced by `\n` (left to right).
pub open spec fn crlf_to_lf(s: Seq<char>, i: int) -> Seq<char>
    decreases s.len() - i,
{
    if i < 0 || i >= s.len() {
        seq![]
    } else if s[i] == '\r' && i + 1 < s.len() && s[i + 1] == '\n' {
        seq!['\n'] + crlf_to_lf(s, i + 2)
    } else {
        seq![s[i]] + crlf_to_lf(s, i + 1)
    }
}

/// `s` with every `\r` replaced by `\n`.
pub open spec fn cr_to_lf(s: Seq<char>) -> Seq<char> {
    s.map_values(|c: char| if c == '\r' { '\n' } else { c })
}

/// The `\n`-normalized text, detected format and BOM flag of raw text: a
/// leading U+FEFF is stripped; any `\r\n` means DOS, else any `\r` means
/// old Mac, else Unix.
pub open spec fn normalize_spec(raw: Seq<char>) -> (Seq<char>, FileFormat, bool) {
    let bom = raw.len() > 0 && raw[0] == '\u{feff}';
    let s = if bom { raw.drop_first() } else { raw };
    if has_crlf(s) {
        (crlf_to_lf(s, 0), FileFormat::Dos, bom)
    } else if s.contains('\r') {
        (cr_to_lf(s), FileFormat::Mac, bom)
    } else {
        (s, FileFormat::Unix, bom)
    }
}

/// Strips a leading UTF-8 BOM and detects the dominant line ending,
/// returning the `\n`-normalized text alongside the detected format and
/// whether a BOM was present. DOS wins if any `\r\n` occurs; a lone `\r`
/// implies old-Mac.
pub fn normalize_content(raw: &str) -> (r: (String, FileFormat, bool))
    ensures
        r.0@ == normalize_spec(raw@).0,
        r.1 == normalize_spec(raw@).1,
        r.2 == normalize_spec(raw@).2,
{
    let v = chars_of(raw);
    let bom = v.len() > 0 && v[0] == '\u{feff}';
    let start: usize = if bom { 1 } else { 0 };
    let ghost s = if bom { raw@.drop_first() } else { raw@ };
    assert(s =~= v@.subrange(start as int, v@.len() as int));
    let mut crlf = false;
    let mut cr = false;
    let mut i = start;
    while i < v.len()
        invariant
            start <= i <= v@.len(),
            v@ == raw@,
            s == v@.subrange(start as int, v@.len() as int),
            crlf == (exists|j: int| start <= j < i && j + 1 < v@.len() && #[trigger] v@[j] == '\r' && v@[j + 1] == '\n'),
            cr == (exists|j: int| start <= j < i && #[trigger] v@[j] == '\r'),
        decreases v@.len() - i,
    {
        if v[i] == '\r' {
            cr = true;
            if i + 1 < v.len() && v[i + 1] == '\n' {
                crlf = true;
            }
        }
        i += 1;
    }
    assert(crlf == has_crlf(s)) by {
        if crlf {
            let j = choose|j: int| start <= j < i && j + 1 < v@.len() && #[trigger] v@[j] == '\r' && v@[j + 1] == '\n';
            assert(s[j - start] == '\r' && s[j - start + 1] == '\n');
        }
        if has_crlf(s) {
            let j = choose|j: int| 0 <= j < s.len() - 1 && #[trigger] s[j] == '\r' && s[j + 1] == '\n';
            assert(v@[j + start] == '\r');
        }
    }
    assert(cr == s.contains('\r')) by {
        if cr {
            let j = choose|j: int| start <= j < i && #[trigger] v@[j] == '\r';
            assert(s[j - start] == '\r');
        }
        if s.contains('\r') {
            let j = choose|j: int| 0 <= j < s.len() && s[j] == '\r';
            assert(v@[j + start] == '\r');
        }
    }
    let mut out = String::new();
    let mut k = start;
    if crlf {
        while k < v.len()
            invariant
                start <= k <= v@.len(),
                v@ == raw@,
                s == v@.subrange(start as int, v@.len() as int),
                crlf_to_lf(s, 0) == out@ + crlf_to_lf(s, k - start),
            decreases v@.len() - k,
        {
            if v[k] == '\r' && k + 1 < v.len() && v[k + 1] == '\n' {
                proof {
                    crate::text::lemma_push_concat(out@, '\n', crlf_to_lf(s, k - start + 2));
                }
                push_char(&mut out, '\n');
                k += 2;
            } else {
                proof {
                    crate::text::lemma_push_concat(out@, v@[k as int], crlf_to_lf(s, k - start + 1));
                }
                push_char(&mut out, v[k]);
                k += 1;
            }
        }
        assert(out@ + crlf_to_lf(s, k - start) =~= out@);
        (out, FileFormat::Dos, bom)
    } else if cr {
        while k < v.len()
            invariant
                start <= k <= v@.len(),
                v@ == raw@,
                s == v@.subrange(start as int, v@.len() as int),
                out@ == cr_to_lf(s).subrange(0, k - start),
            decreases v@.len() - k,
        {
            let c = if v[k] == '\r' { '\n' } else { v[k] };
            push_char(&mut out, c);
            assert(cr_to_lf(s).subrange(0, k - start + 1) =~= cr_to_lf(s).subrange(0, k - start).push(c));
            k += 1;
        }
        assert(cr_to_lf(s).subrange(0, k - start) =~= cr_to_lf(s));
        (out, FileFormat::Mac, bom)
    } else {
        let t = crate::text::string_of(&v, start, v.len());
        (t, FileFormat::Unix, bom)
    }
}

/// The byte encoding of a file on disk; recorded on load and re-applied on
/// save so a latin1/UTF-16 file round-trips.
#[derive(Clone, Copy, Debug, PartialEq, Eq, Structural)]
pub enum Encoding {
    Utf8,
    Latin1,
    Utf16Le,
    Utf16Be,
}

impl Default for Encoding {
    fn default() -> (r: Self)
        ensures
            r == Encoding::Utf8,
    {
        Encoding::Utf8
    }
}

/// The name of an encoding.
pub open spec fn encoding_name(e: Encoding) -> Seq<char> {
    match e {
        Encoding::Utf8 => "utf-8"@,
        Encoding::Latin1 => "latin1"@,
        Encoding::Utf16Le => "utf-16le"@,
        Encoding::Utf16Be => "utf-16be"@,
    }
}

impl Encoding {
    /// The encoding's name, as `:set fileencoding` shows it.
    pub fn name(self) -> (r: &'static str)
        ensures
            r@ == encoding_name(self),
    {
        match self {
            Encoding::Utf8 => "utf-8",
            Encoding::Latin1 => "latin1",
            Encoding::Utf16Le => "utf-16le",
            Encoding::Utf16Be => "utf-16be",
        }
    }
}

/// Whether a UTF-16 unit is a surrogate.
pub open spec fn is_surrogate(x: u16) -> bool {
    0xD800 <= x <= 0xDFFF
}

/// Whether a UTF-16 unit is a high (leading) surrogate.
pub open spec fn is_high_surrogate(x: u16) -> bool {
    0xD800 <= x <= 0xDBFF
}

/// Whether a UTF-16 unit is a low (trailing) surrogate.
pub open spec fn is_low_surrogate(x: u16) -> bool {
    0xDC00 <= x <= 0xDFFF
}

/// The code point a surrogate pair stands for.
pub open spec fn pair_value(hi: u16, lo: u16) -> int {
    0x10000 + (hi - 0xD800) * 0x400 + (lo - 0xDC00)
}

/// UTF-16 units decoded as `String::from_utf16_lossy` decodes them: a unit
/// outside the surrogates is its char, a high surrogate followed by a low
/// one is their pair's char, and any other surrogate is U+FFFD.
pub open spec fn utf16_lossy(u: Seq<u16>) -> Seq<char>
    decreases u.len(),
{
    if u.len() == 0 {
        seq![]
    } else if !is_surrogate(u[0]) {
        seq![(u[0] as u32) as char] + utf16_lossy(u.drop_first())
    } else if is_high_surrogate(u[0]) && u.len() > 1 && is_low_surrogate(u[1]) {
        seq![(pair_value(u[0], u[1]) as u32) as char] + utf16_lossy(u.subrange(2, u.len() as int))
    } else {
        seq!['\u{FFFD}'] + utf16_lossy(u.drop_first())
    }
}

/// The UTF-16 units of one char: itself below U+10000, else its
/// surrogate pair.
pub open spec fn char_units(c: char) -> Seq<u16> {
    let u = c as u32;
    if u < 0x10000 {
        seq![u as u16]
    } else {
        let v = u - 0x10000;
        seq![(0xD800 + v / 0x400) as u16, (0xDC00 + v % 0x400) as u16]
    }
}

/// Text encoded as UTF-16 (`str::encode_utf16`).
pub open spec fn utf16_units(s: Seq<char>) -> Seq<u16>
    decreases s.len(),
{
    if s.len() == 0 {
        seq![]
    } else {
        char_units(s[0]) + utf16_units(s.drop_first())
    }
}

/// `std::str::from_utf8`, with the error dropped.
#[verifier::external_body]
fn from_utf8(b: &[u8]) -> (r: Option<String>)
    ensures
        r is Some <==> valid_utf8(b@),
        r matches Some(s) ==> s@ == decode_utf8(b@),
{
    std::str::from_utf8(b).ok().map(|s| s.to_string())
}

/// Decoding a char's UTF-16 units, followed by more, gives the char first.
proof fn lemma_decode_char_units(c: char, rest: Seq<u16>)
    ensures
        utf16_lossy(char_units(c) + rest) == seq![c] + utf16_lossy(rest),
{
    vstd::utf8::char_is_scalar(c);
    let u = c as u32;
    let us = char_units(c) + rest;
    if u < 0x10000 {
        assert(us[0] == u as u16);
        assert((u as u16) as u32 == u);
        assert(!is_surrogate(us[0]));
        assert(us.drop_first() =~= rest);
        vstd::utf8::char_u32_cast(c, u);
    } else {
        let v = u - 0x10000;
        assert(v <= 0xFFFFF);
        assert(v / 0x400 <= 0x3FF && v % 0x400 < 0x400) by (nonlinear_arith)
            requires
                0 <= v <= 0xFFFFF;
        let hi = (0xD800 + v / 0x400) as u16;
        let lo = (0xDC00 + v % 0x400) as u16;
        assert(us[0] == hi && us[1] == lo);
        assert(hi as int == 0xD800 + v / 0x400);
        assert(lo as int == 0xDC00 + v % 0x400);
        assert(v == 0x400 * (v / 0x400) + v % 0x400) by (nonlinear_arith)
            requires
                0 <= v;
        assert(pair_value(hi, lo) == u);
        assert(us.subrange(2, us.len() as int) =~= rest);
        vstd::utf8::char_u32_cast(c, u);
    }
}

/// Text encoded as UTF-16 decodes back to itself.
pub proof fn law_utf16_round_trip(s: Seq<char>)
    ensures
        utf16_lossy(utf16_units(s)) == s,
    decreases s.len(),
{
    if s.len() > 0 {
        law_utf16_round_trip(s.drop_first());
        lemma_decode_char_units(s[0], utf16_units(s.drop_first()));
        assert(seq![s[0]] + s.drop_first() =~= s);
    }
}

/// `String::from_utf16_lossy`: the units decoded, an unpaired surrogate
/// read as U+FFFD (see `utf16_lossy`).
#[verifier::external_body]
fn from_utf16_lossy(u: &[u16]) -> (r: String)
    ensures
        r@ == utf16_lossy(u@),
{
    String::from_utf16_lossy(u)
}

proof fn lemma_utf16_units_push(s: Seq<char>, c: char)
    ensures
        utf16_units(s.push(c)) == utf16_units(s) + char_units(c),
    decreases s.len(),
{
    if s.len() == 0 {
        assert(s.push(c).drop_first() =~= Seq::<char>::empty());
        assert(utf16_units(s.push(c)) =~= char_units(c) + utf16_units(Seq::<char>::empty()));
    } else {
        assert(s.push(c).drop_first() =~= s.drop_first().push(c));
        lemma_utf16_units_push(s.drop_first(), c);
        assert(utf16_units(s.push(c)) =~= utf16_units(s) + char_units(c));
    }
}

/// Text encoded as UTF-16 (`str::encode_utf16`, see `utf16_units`).
fn encode_utf16(s: &str) -> (r: Vec<u16>)
    ensures
        r@ == utf16_units(s@),
{
    let v = chars_of(s);
    let mut out: Vec<u16> = Vec::new();
    let mut i: usize = 0;
    assert(v@.subrange(0, 0) =~= Seq::<char>::empty());
    while i < v.len()
        invariant
            i <= v@.len(),
            v@ == s@,
            out@ == utf16_units(v@.subrange(0, i as int)),
        decreases v@.len() - i,
    {
        let c = v[i];
        let u = c as u32;
        let ghost before = out@;
        if u < 0x10000 {
            out.push(u as u16);
        } else {
            let w = u - 0x10000;
            assert(w <= 0xFFFFF) by {
                vstd::utf8::char_is_scalar(c);
            }
            out.push((0xD800 + w / 0x400) as u16);
            out.push((0xDC00 + w % 0x400) as u16);
        }
        proof {
            assert(out@ =~= before + char_units(c));
            assert(v@.subrange(0, i + 1) =~= v@.subrange(0, i as int).push(c));
            lemma_utf16_units_push(v@.subrange(0, i as int), c);
        }
        i += 1;
    }
    assert(v@.subrange(0, i as int) =~= v@);
    out
}

/// The 16-bit units of `b[2..]` taken two bytes at a time (a trailing odd
/// byte dropped), little- or big-endian.
pub open spec fn units_of(b: Seq<u8>, le: bool) -> Seq<u16> {
    Seq::new(((b.len() - 2) / 2) as nat, |k: int| {
        let lo = b[2 + 2 * k];
        let hi = b[3 + 2 * k];
        if le {
            (lo as int + 256 * hi as int) as u16
        } else {
            (hi as int + 256 * lo as int) as u16
        }
    })
}

/// The chars of latin1 bytes: every byte is a code point.
pub open spec fn latin1_chars(b: Seq<u8>) -> Seq<char> {
    b.map_values(|x: u8| x as char)
}

/// The text and encoding a file's bytes decode to: a UTF-16 BOM
/// (`FF FE`/`FE FF`) means UTF-16 (lossily decoded after the BOM),
/// otherwise valid UTF-8 is UTF-8, otherwise every byte is a latin1 char.
pub open spec fn decode_spec(b: Seq<u8>) -> (Seq<char>, Encoding) {
    if b.len() >= 2 && b[0] == 0xFF && b[1] == 0xFE {
        (utf16_lossy(units_of(b, true)), Encoding::Utf16Le)
    } else if b.len() >= 2 && b[0] == 0xFE && b[1] == 0xFF {
        (utf16_lossy(units_of(b, false)), Encoding::Utf16Be)
    } else if valid_utf8(b) {
        (decode_utf8(b), Encoding::Utf8)
    } else {
        (latin1_chars(b), Encoding::Latin1)
    }
}

fn units(b: &[u8], le: bool) -> (r: Vec<u16>)
    requires
        b@.len() >= 2,
    ensures
        r@ == units_of(b@, le),
{
    let bl = b.len();
    let n = (bl - 2) / 2;
    let mut r: Vec<u16> = Vec::new();
    let mut k: usize = 0;
    while k < n
        invariant
            k <= n,
            bl == b@.len(),
            n == (b@.len() - 2) / 2,
            r@ == units_of(b@, le).subrange(0, k as int),
        decreases n - k,
    {
        let lo = b[2 + 2 * k];
        let hi = b[3 + 2 * k];
        let u: u16 = if le {
            (lo as u16) + 256 * (hi as u16)
        } else {
            (hi as u16) + 256 * (lo as u16)
        };
        r.push(u);
        assert(r@ =~= units_of(b@, le).subrange(0, k + 1));
        k += 1;
    }
    assert(units_of(b@, le).subrange(0, n as int) =~= units_of(b@, le));
    r
}

/// Decodes file bytes to text, detecting the encoding: a UTF-16 BOM → UTF-16;
/// otherwise valid UTF-8 → UTF-8; otherwise latin1. The text keeps its
/// original line endings and any leading BOM char.
pub fn decode_bytes(bytes: &[u8]) -> (r: (String, Encoding))
    ensures
        r.0@ == decode_spec(bytes@).0,
        r.1 == decode_spec(bytes@).1,
{
    if bytes.len() >= 2 && bytes[0] == 0xFF && bytes[1] == 0xFE {
        let u = units(bytes, true);
        return (from_utf16_lossy(&u), Encoding::Utf16Le);
    }
    if bytes.len() >= 2 && bytes[0] == 0xFE && bytes[1] == 0xFF {
        let u = units(bytes, false);
        return (from_utf16_lossy(&u), Encoding::Utf16Be);
    }
    match from_utf8(bytes) {
        Some(s) => (s, Encoding::Utf8),
        None => {
            let mut s = String::new();
            let mut i: usize = 0;
            while i < bytes.len()
                invariant
                    i <= bytes@.len(),
                    s@ == latin1_chars(bytes@).subrange(0, i as int),
                decreases bytes@.len() - i,
            {
                push_char(&mut s, bytes[i] as char);
                assert(s@ =~= latin1_chars(bytes@).subrange(0, i + 1));
                i += 1;
            }
            assert(latin1_chars(bytes@).subrange(0, i as int) =~= latin1_chars(bytes@));
            (s, Encoding::Latin1)
        },
    }
}

/// The bytes of 16-bit units, little- or big-endian.
pub open spec fn unit_bytes(u: Seq<u16>, le: bool) -> Seq<u8>
    decreases u.len(),
{
    if u.len() == 0 {
        seq![]
    } else {
        let x = u.last();
        let lo = (x % 256) as u8;
        let hi = (x / 256) as u8;
        unit_bytes(u.drop_last(), le) + if le { seq![lo, hi] } else { seq![hi, lo] }
    }
}

/// The bytes text is saved as: UTF-8 as is; latin1 with every char above
/// U+00FF written as `?`; UTF-16 with its BOM first.
pub open spec fn encode_spec(text: Seq<char>, e: Encoding) -> Seq<u8> {
    match e {
        Encoding::Utf8 => vstd::utf8::encode_utf8(text),
        Encoding::Latin1 => text.map_values(|c: char| if (c as u32) <= 0xFF { c as u8 } else { 63u8 }),
        Encoding::Utf16Le => seq![0xFFu8, 0xFEu8] + unit_bytes(utf16_units(text), true),
        Encoding::Utf16Be => seq![0xFEu8, 0xFFu8] + unit_bytes(utf16_units(text), false),
    }
}

/// The bytes of units: two per unit, each unit's low byte first when
/// little-endian.
proof fn lemma_unit_bytes(u: Seq<u16>, le: bool)
    ensures
        unit_bytes(u, le).len() == 2 * u.len(),
        forall|k: int| 0 <= k < u.len() ==> {
            let lo = (#[trigger] u[k] % 256) as u8;
            let hi = (u[k] / 256) as u8;
            &&& unit_bytes(u, le)[2 * k] == if le { lo } else { hi }
            &&& unit_bytes(u, le)[2 * k + 1] == if le { hi } else { lo }
        },
    decreases u.len(),
{
    if u.len() > 0 {
        lemma_unit_bytes(u.drop_last(), le);
        assert forall|k: int| 0 <= k < u.len() - 1 implies #[trigger] u[k] == u.drop_last()[k] by {}
    }
}

/// Units written out as bytes after a two-byte mark read back as the same
/// units.
proof fn lemma_units_of_unit_bytes(u: Seq<u16>, le: bool, mark: Seq<u8>)
    requires
        mark.len() == 2,
    ensures
        units_of(mark + unit_bytes(u, le), le) == u,
{
    lemma_unit_bytes(u, le);
    let b = mark + unit_bytes(u, le);
    assert forall|k: int| 0 <= k < u.len() implies #[trigger] units_of(b, le)[k] == u[k] by {
        let x = u[k];
        assert(b[2 + 2 * k] == unit_bytes(u, le)[2 * k]);
        assert(b[3 + 2 * k] == unit_bytes(u, le)[2 * k + 1]);
        assert((x % 256) as u8 as int == x % 256);
        assert((x / 256) as u8 as int == x / 256);
        assert(x % 256 + 256 * (x / 256) == x) by (nonlinear_arith);
    }
    assert(units_of(b, le) =~= u);
}

/// Text saved in UTF-8 or UTF-16 (either byte order) is read back as the
/// same text in the same encoding; so is text saved in latin1 when all its
/// chars are latin1 and its bytes read neither as UTF-8 nor as a UTF-16
/// mark.
pub proof fn law_decode_encode_round_trip(t: Seq<char>, e: Encoding)
    requires
        e == Encoding::Latin1 ==> {
            &&& forall|k: int| 0 <= k < t.len() ==> (#[trigger] t[k] as u32) <= 0xFF
            &&& !valid_utf8(encode_spec(t, e))
            &&& !(encode_spec(t, e).len() >= 2 && encode_spec(t, e)[0] == 0xFF && encode_spec(t, e)[1] == 0xFE)
            &&& !(encode_spec(t, e).len() >= 2 && encode_spec(t, e)[0] == 0xFE && encode_spec(t, e)[1] == 0xFF)
        },
    ensures
        decode_spec(encode_spec(t, e)) == (t, e),
{
    let b = encode_spec(t, e);
    match e {
        Encoding::Utf8 => {
            vstd::utf8::encode_utf8_valid_utf8(t);
            vstd::utf8::encode_utf8_decode_utf8(t);
            if b.len() >= 2 {
                assert(vstd::utf8::valid_first_scalar(b));
                assert(b[0] <= 0xF7);
            }
        },
        Encoding::Latin1 => {
            assert forall|k: int| 0 <= k < t.len() implies #[trigger] latin1_chars(b)[k] == t[k] by {
                vstd::utf8::char_u32_cast(t[k], t[k] as u32);
                assert(b[k] == t[k] as u8);
                assert((t[k] as u8) as u32 == t[k] as u32);
            }
            assert(latin1_chars(b) =~= t);
        },
        Encoding::Utf16Le => {
            lemma_units_of_unit_bytes(utf16_units(t), true, seq![0xFFu8, 0xFEu8]);
            law_utf16_round_trip(t);
        },
        Encoding::Utf16Be => {
            lemma_units_of_unit_bytes(utf16_units(t), false, seq![0xFEu8, 0xFFu8]);
            law_utf16_round_trip(t);
        },
    }
}

/// Encodes text to bytes in `encoding` (the inverse of `decode_bytes`).
pub fn encode_bytes(text: &str, encoding: Encoding) -> (r: Vec<u8>)
    ensures
        r@ == encode_spec(text@, encoding),
{
    match encoding {
        Encoding::Utf8 => {
            let b = text.as_bytes();
            let mut r: Vec<u8> = Vec::new();
            let mut i: usize = 0;
            while i < b.len()
                invariant
                    i <= b@.len(),
                    r@ == b@.subrange(0, i as int),
                decreases b@.len() - i,
            {
                r.push(b[i]);
                assert(r@ =~= b@.subrange(0, i + 1));
                i += 1;
            }
            assert(b@.subrange(0, i as int) =~= b@);
            r
        },
        Encoding::Latin1 => {
            let v = chars_of(text);
            let mut r: Vec<u8> = Vec::new();
            let mut i: usize = 0;
            while i < v.len()
                invariant
                    i <= v@.len(),
                    v@ == text@,
                    r@ == text@.map_values(|c: char| if (c as u32) <= 0xFF { c as u8 } else { 63u8 }).subrange(0, i as int),
                decreases v@.len() - i,
            {
                let c = v[i];
                let b: u8 = if (c as u32) <= 0xFF { c as u8 } else { 63u8 };
                r.push(b);
                assert(r@ =~= text@.map_values(|c: char| if (c as u32) <= 0xFF { c as u8 } else { 63u8 }).subrange(0, i + 1));
                i += 1;
            }
            assert(text@.map_values(|c: char| if (c as u32) <= 0xFF { c as u8 } else { 63u8 }).subrange(0, i as int) =~= text@.map_values(|c: char| if (c as u32) <= 0xFF { c as u8 } else { 63u8 }));
            r
        },
        Encoding::Utf16Le | Encoding::Utf16Be => {
            let le = match encoding { Encoding::Utf16Le => true, _ => false };
            let mut r: Vec<u8> = Vec::new();
            if le {
                r.push(0xFF);
                r.push(0xFE);
            } else {
                r.push(0xFE);
                r.push(0xFF);
            }
            let ghost head = r@;
            let u = encode_utf16(text);
            let mut i: usize = 0;
            while i < u.len()
                invariant
                    i <= u@.len(),
                    r@ == head + unit_bytes(u@.subrange(0, i as int), le),
                decreases u@.len() - i,
            {
                let x = u[i];
                let lo = (x % 256) as u8;
                let hi = (x / 256) as u8;
                if le {
                    r.push(lo);
                    r.push(hi);
                } else {
                    r.push(hi);
                    r.push(lo);
                }
                assert(u@.subrange(0, i + 1).drop_last() =~= u@.subrange(0, i as int));
                assert(r@ =~= head + unit_bytes(u@.subrange(0, i + 1), le));
                i += 1;
            }
            assert(u@.subrange(0, i as int) =~= u@);
            r
        },
    }
}

/// A manual fold over an inclusive line range.
#[derive(Clone, Copy, Debug, PartialEq, Eq, Structural)]
pub struct Fold {
    pub start: usize,
    pub end: usize,
    pub closed: bool,
}

#[verifier::external_type_specification]
#[verifier::external_body]
pub struct ExPathBuf(std::path::PathBuf);

/// What `Path::display` shows for a path (its text, with bytes that are
/// not UTF-8 replaced).
pub uninterp spec fn path_text(p: std::path::PathBuf) -> Seq<char>;

/// `PathBuf::display().to_string()`, by the name `path_text`.
#[verifier::external_body]
fn path_display(p: &std::path::PathBuf) -> (r: String)
    ensures
        r@ == path_text(*p),
{
    p.display().to_string()
}

/// A text state the undo history can return to.
pub struct UndoState {
    pub rope: Rope,
    pub cursor: (usize, usize),
}

/// The number of lines a cursor can be on: ropey's count, less an empty
/// last line after a final line break.
pub open spec fn line_count_spec(s: Seq<char>) -> int {
    let lc = num_lines(s);
    if lc > 1 && line_start_of(s, lc - 1) == line_start_of(s, lc) {
        lc - 1
    } else {
        lc
    }
}

/// The text of line `i` without its `\n` (and a `\r` before that).
pub open spec fn line_content(s: Seq<char>, i: int) -> Seq<char> {
    if i < 0 || i >= num_lines(s) {
        seq![]
    } else {
        let t = line_text_of(s, i);
        let t1 = if t.len() > 0 && t.last() == '\n' { t.drop_last() } else { t };
        let t2 = if t.len() > 0 && t.last() == '\n' && t1.len() > 0 && t1.last() == '\r' { t1.drop_last() } else { t1 };
        t2
    }
}

/// `col` clamped to the last column of `t`.
pub open spec fn last_col_clamp(t: Seq<char>, col: int) -> int {
    if col < t.len() - 1 { col } else { t.len() - 1 }
}

/// The last line index, clamped at 0.
pub open spec fn last_line(s: Seq<char>) -> int {
    if line_count_spec(s) > 0 { line_count_spec(s) - 1 } else { 0 }
}

/// The char offset of `(line, col)`: the line clamped to the rope's lines,
/// the column to that line's length.
pub open spec fn char_idx_spec(s: Seq<char>, line: int, col: int) -> int {
    let l = if line < num_lines(s) - 1 { line } else { num_lines(s) - 1 };
    let len = line_content(s, l).len() as int;
    line_start_of(s, l) + if col < len { col } else { len }
}

/// The text-and-history state of a buffer: its text, the text as last
/// saved, the undo and redo histories (oldest first) and the text an open
/// edit transaction started from.
pub struct History {
    pub text: Seq<char>,
    pub saved: Seq<char>,
    pub undo: Seq<Seq<char>>,
    pub redo: Seq<Seq<char>>,
    pub pending: Option<Seq<char>>,
}

/// `begin_edit`: opens a transaction at the current text unless one is open.
pub open spec fn begin_model(h: History) -> History {
    if h.pending is None { History { pending: Some(h.text), ..h } } else { h }
}

/// `commit_edit`: closes the open transaction; when the text changed since
/// it opened, the opening text becomes the newest undo state and the redo
/// history is cleared.
pub open spec fn commit_model(h: History) -> History {
    match h.pending {
        Some(p) => if p == h.text {
            History { pending: None, ..h }
        } else {
            History { pending: None, undo: h.undo.push(p), redo: seq![], ..h }
        },
        None => h,
    }
}

/// `undo`: the newest undo state becomes the text, the current text the
/// newest redo state; nothing happens with an empty undo history.
pub open spec fn undo_model(h: History) -> History {
    if h.undo.len() == 0 {
        h
    } else {
        History { text: h.undo.last(), undo: h.undo.drop_last(), redo: h.redo.push(h.text), ..h }
    }
}

/// `redo`: the newest redo state becomes the text, the current text the
/// newest undo state; nothing happens with an empty redo history.
pub open spec fn redo_model(h: History) -> History {
    if h.redo.len() == 0 {
        h
    } else {
        History { text: h.redo.last(), redo: h.redo.drop_last(), undo: h.undo.push(h.text), ..h }
    }
}

/// An edit: the text replaced, the histories untouched.
pub open spec fn edit_model(h: History, t: Seq<char>) -> History {
    History { text: t, ..h }
}

/// `mark_saved`: the current text is the saved text.
pub open spec fn save_model(h: History) -> History {
    History { saved: h.text, ..h }
}

/// Whether the buffer differs from what was last saved.
pub open spec fn modified(h: History) -> bool {
    h.text != h.saved
}

/// A text buffer: its rope, cursor and view state, undo/redo history,
/// indent settings, on-disk format and folds.
pub struct Buffer {
    pub id: u64,
    pub note_id: Option<u64>,
    pub disk_text: Option<String>,
    pub rope: Rope,
    pub path: Option<std::path::PathBuf>,
    pub cursor_line: usize,
    pub cursor_col: usize,
    pub top_line: usize,
    pub top_wrap: usize,
    pub left_col: usize,
    pub desired_col: usize,
    /// Bumped on every content-changing operation, undo/redo included.
    pub edit_seq: u64,
    /// The rope as of the last load/save; `is_modified` compares content
    /// against it.
    pub saved_snapshot: Rope,
    pub undo_stack: Vec<UndoState>,
    pub redo_stack: Vec<UndoState>,
    pub pending_undo: Option<UndoState>,
    pub tabstop: usize,
    pub shiftwidth: usize,
    pub expandtab: bool,
    pub indent_source: crate::indent::IndentSource,
    pub fileformat: FileFormat,
    pub bom: bool,
    pub encoding: Encoding,
    pub folds: Vec<Fold>,
    pub ec_trim_trailing: Option<bool>,
    pub ec_final_newline: Option<bool>,
    pub ec_max_line_length: Option<usize>,
}

impl Buffer {
    /// The buffer's text.
    pub open spec fn text(&self) -> Seq<char> {
        rope_text(self.rope)
    }

    /// The text as of the last load/save.
    pub closed spec fn saved_text(&self) -> Seq<char> {
        rope_text(self.saved_snapshot)
    }

    /// The texts of the undo history, oldest first.
    pub closed spec fn undo_texts(&self) -> Seq<Seq<char>> {
        self.undo_stack@.map_values(|u: UndoState| rope_text(u.rope))
    }

    /// The texts of the redo history, oldest first.
    pub closed spec fn redo_texts(&self) -> Seq<Seq<char>> {
        self.redo_stack@.map_values(|u: UndoState| rope_text(u.rope))
    }

    /// The cursors saved with the undo history, oldest first.
    pub closed spec fn undo_cursors(&self) -> Seq<(usize, usize)> {
        self.undo_stack@.map_values(|u: UndoState| u.cursor)
    }

    /// The buffer's name: its file's path, else its private comment's
    /// number, else `[No Name]`.
    pub open spec fn name_spec(&self) -> Seq<char> {
        match self.path {
            Some(p) => path_text(p),
            None => match self.note_id {
                Some(id) => "[Private comment #"@ + crate::markdown::decimal(id as nat) + "]"@,
                None => "[No Name]"@,
            },
        }
    }

    /// The cursor an open undo transaction recorded, with the text.
    pub closed spec fn pending_cursor(&self) -> Option<(usize, usize)> {
        match self.pending_undo {
            Some(u) => Some(u.cursor),
            None => None,
        }
    }

    /// The cursors kept with the undo history, the redo history and an
    /// open transaction.
    pub open spec fn saved_cursors(&self) -> (Seq<(usize, usize)>, Seq<(usize, usize)>, Option<(usize, usize)>) {
        (self.undo_cursors(), self.redo_cursors(), self.pending_cursor())
    }

    /// The cursors saved with the redo history, oldest first.
    pub closed spec fn redo_cursors(&self) -> Seq<(usize, usize)> {
        self.redo_stack@.map_values(|u: UndoState| u.cursor)
    }

    /// Where a restored cursor `c` lands in this buffer: its line clamped to
    /// the last line, its column placed as Normal mode places it.
    pub open spec fn restored_cursor(&self, c: (usize, usize)) -> bool {
        let last = line_count_spec(self.text()) - 1;
        &&& self.cursor_line == if c.0 < last { c.0 as int } else { last }
        &&& crate::editor::normal_col(line_content(self.text(), self.cursor_line as int), c.1 as int, self.cursor_col as int)
    }

    /// Whether the view fields (scroll offsets and the remembered column)
    /// are those of `other`.
    /// Whether `self` has `other`'s identity, file and format settings:
    /// everything but the text, history, cursor, view and folds.
    pub open spec fn same_settings(&self, other: &Buffer) -> bool {
        &&& self.id == other.id
        &&& self.note_id == other.note_id
        &&& self.path == other.path
        &&& self.fileformat == other.fileformat
        &&& self.bom == other.bom
        &&& self.encoding == other.encoding
        &&& self.tabstop == other.tabstop
        &&& self.shiftwidth == other.shiftwidth
        &&& self.expandtab == other.expandtab
        &&& self.indent_source == other.indent_source
        &&& self.ec_trim_trailing == other.ec_trim_trailing
        &&& self.ec_final_newline == other.ec_final_newline
        &&& self.ec_max_line_length == other.ec_max_line_length
    }

    pub open spec fn same_view(&self, other: &Buffer) -> bool {
        &&& self.top_line == other.top_line
        &&& self.top_wrap == other.top_wrap
        &&& self.left_col == other.left_col
        &&& self.desired_col == other.desired_col
    }

    /// The text-and-history state of the buffer.
    pub open spec fn history(&self) -> History {
        History {
            text: self.text(),
            saved: self.saved_text(),
            undo: self.undo_texts(),
            redo: self.redo_texts(),
            pending: self.pending_text(),
        }
    }

    /// Buffers that agree on their text, saved text and undo state have the
    /// same history and saved cursors.
    pub proof fn lemma_same_history(&self, other: &Buffer)
        requires
            self.rope == other.rope,
            self.saved_snapshot == other.saved_snapshot,
            self.undo_stack@ == other.undo_stack@,
            self.redo_stack@ == other.redo_stack@,
            self.pending_undo == other.pending_undo,
        ensures
            self.history() == other.history(),
            self.saved_cursors() == other.saved_cursors(),
    {
    }

    /// An open transaction records a text and a cursor together, and each
    /// undo or redo state keeps a cursor beside its text.
    pub proof fn lemma_saved_cursors(&self)
        ensures
            self.pending_cursor() is None <==> self.pending_text() is None,
            self.undo_cursors().len() == self.undo_texts().len(),
            self.redo_cursors().len() == self.redo_texts().len(),
    {
    }

    /// The text an open edit transaction started from.
    pub closed spec fn pending_text(&self) -> Option<Seq<char>> {
        match self.pending_undo {
            Some(u) => Some(rope_text(u.rope)),
            None => None,
        }
    }

    /// The text as last written to or read from disk.
    pub closed spec fn disk(&self) -> Option<Seq<char>> {
        match self.disk_text {
            Some(t) => Some(t@),
            None => None,
        }
    }

    /// A buffer with the given id holding `text` (which it regards as
    /// saved), the given path, line format, BOM flag and encoding.
    fn with_text(id: u64, text: &str, path: Option<std::path::PathBuf>, disk: Option<String>, fileformat: FileFormat, bom: bool, encoding: Encoding) -> (b: Buffer)
        ensures
            b.text() == text@,
            b.saved_text() == text@,
            b.undo_texts().len() == 0,
            b.redo_texts().len() == 0,
            b.pending_text() is None,
            b.disk() == match disk { Some(d) => Some(d@), None => None::<Seq<char>> },
            b.id == id,
            b.path == path,
            b.fileformat == fileformat,
            b.bom == bom,
            b.encoding == encoding,
            b.folds@.len() == 0,
            b.cursor_line == 0 && b.cursor_col == 0 && b.edit_seq == 0,
            b.tabstop == 4 && b.shiftwidth == 4 && b.expandtab,
    {
        let rope = rope_from_str(text);
        let b = Buffer {
            id,
            note_id: None,
            disk_text: disk,
            saved_snapshot: rope_clone(&rope),
            rope,
            path,
            cursor_line: 0,
            cursor_col: 0,
            top_line: 0,
            top_wrap: 0,
            left_col: 0,
            desired_col: 0,
            edit_seq: 0,
            undo_stack: Vec::new(),
            redo_stack: Vec::new(),
            pending_undo: None,
            tabstop: 4,
            shiftwidth: 4,
            expandtab: true,
            indent_source: crate::indent::IndentSource::Default,
            fileformat,
            bom,
            encoding,
            folds: Vec::new(),
            ec_trim_trailing: None,
            ec_final_newline: None,
            ec_max_line_length: None,
        };
        assert(b.undo_texts() =~= Seq::<Seq<char>>::empty());
        assert(b.redo_texts() =~= Seq::<Seq<char>>::empty());
        b
    }

    /// An empty, nameless buffer (a single empty line) with the given id.
    pub fn empty(id: u64) -> (b: Buffer)
        ensures
            b.text() == seq!['\n'],
            b.saved_text() == b.text(),
            b.undo_texts().len() == 0,
            b.redo_texts().len() == 0,
            b.pending_text() is None,
            b.disk() is None,
            b.id == id,
            b.path is None,
            b.fileformat == FileFormat::Unix,
            !b.bom,
            b.encoding == Encoding::Utf8,
    {
        proof {
            reveal_strlit("\n");
        }
        Self::with_text(id, "\n", None, None, FileFormat::Unix, false, Encoding::Utf8)
    }

    /// A buffer for the file at `path`, from its bytes (`None` when the file
    /// does not exist): decoded, `\n`-normalized, its format, BOM and
    /// encoding recorded; a missing file is an empty buffer with no disk
    /// text.
    pub fn from_contents(id: u64, path: std::path::PathBuf, bytes: Option<Vec<u8>>) -> (b: Buffer)
        ensures
            match bytes {
                Some(by) => {
                    let n = normalize_spec(decode_spec(by@).0);
                    &&& b.text() == n.0
                    &&& b.disk() == Some(n.0)
                    &&& b.fileformat == n.1
                    &&& b.bom == n.2
                    &&& b.encoding == decode_spec(by@).1
                },
                None => {
                    &&& b.text().len() == 0
                    &&& b.disk() is None
                    &&& b.fileformat == FileFormat::Unix
                    &&& !b.bom
                    &&& b.encoding == Encoding::Utf8
                },
            },
            b.saved_text() == b.text(),
            b.undo_texts().len() == 0,
            b.redo_texts().len() == 0,
            b.pending_text() is None,
            b.id == id,
            b.path == Some(path),
    {
        match bytes {
            Some(by) => {
                let (raw, encoding) = decode_bytes(&by);
                let (content, fileformat, bom) = normalize_content(raw.as_str());
                let disk = content.clone();
                Self::with_text(id, content.as_str(), Some(path), Some(disk), fileformat, bom, encoding)
            },
            None => {
                let (content, fileformat, bom) = normalize_content("");
                proof {
                    reveal_strlit("");
                }
                Self::with_text(id, content.as_str(), Some(path), None, fileformat, bom, Encoding::Utf8)
            },
        }
    }

    /// Number of lines the cursor can be on: ropey counts an empty line
    /// after a final line break, which is not treated as a line here.
    pub fn line_count(&self) -> (n: usize)
        ensures
            n == line_count_spec(self.text()),
            n >= 1,
    {
        let lc = rope_len_lines(&self.rope);
        proof {
            lemma_line_of_nonneg(self.text(), self.text().len() as int);
        }
        if lc > 1 {
            let a = rope_line_to_char(&self.rope, lc - 1);
            let b = rope_line_to_char(&self.rope, lc);
            if a == b {
                return lc - 1;
            }
        }
        lc
    }

    /// Length of a line in chars, excluding the trailing newline.
    pub fn line_len(&self, line: usize) -> (n: usize)
        ensures
            n == line_content(self.text(), line as int).len(),
    {
        let t = self.line_chars(line);
        t.len()
    }

    /// The chars of a line, excluding the trailing newline.
    fn line_chars(&self, line: usize) -> (r: Vec<char>)
        ensures
            r@ == line_content(self.text(), line as int),
    {
        if line >= rope_len_lines(&self.rope) {
            return Vec::new();
        }
        let s = rope_line(&self.rope, line);
        let mut v = chars_of(s.as_str());
        let ghost t = v@;
        if v.len() > 0 && v[v.len() - 1] == '\n' {
            v.pop();
            if v.len() > 0 && v[v.len() - 1] == '\r' {
                v.pop();
            }
        }
        v
    }

    /// The UTF-8 byte range of a line's content, its line break excluded as
    /// `line_len` excludes it; an empty range at the end of the text for a
    /// line past the last.
    pub fn line_byte_range(&self, line: usize) -> (r: (usize, usize))
        ensures
            ({
                let t = self.text();
                if line >= num_lines(t) {
                    r.0 == crate::text::utf8_prefix(t, t.len() as int) && r.1 == r.0
                } else {
                    &&& r.0 == crate::text::utf8_prefix(t, line_start_of(t, line as int))
                    &&& r.1 == crate::text::utf8_prefix(t, line_start_of(t, line as int) + line_content(t, line as int).len())
                }
            }),
    {
        if line >= rope_len_lines(&self.rope) {
            let n = rope_len_bytes(&self.rope);
            return (n, n);
        }
        let start = rope_line_to_byte(&self.rope, line);
        let _total = rope_len_chars(&self.rope);
        proof {
            lemma_content_fits(self.text(), line as int);
        }
        let end_char = rope_line_to_char(&self.rope, line) + self.line_len(line);
        let end = rope_char_to_byte(&self.rope, end_char);
        (start, end)
    }

    /// The text of a line, excluding the trailing newline.
    pub fn line_text(&self, line: usize) -> (r: String)
        ensures
            r@ == line_content(self.text(), line as int),
    {
        let v = self.line_chars(line);
        string_from(&v)
    }

    /// The char offset of `(line, col)`: the line clamped to the rope's
    /// lines, the column to the line's length.
    pub fn char_idx(&self, line: usize, col: usize) -> (r: usize)
        ensures
            r == char_idx_spec(self.text(), line as int, col as int),
            r <= self.text().len(),
    {
        let n = rope_len_lines(&self.rope);
        let _total = rope_len_chars(&self.rope);
        proof {
            lemma_line_of_nonneg(self.text(), self.text().len() as int);
        }
        let l = if line < n - 1 { line } else { n - 1 };
        let base = rope_line_to_char(&self.rope, l);
        let len = self.line_len(l);
        proof {
            lemma_line_start(self.text(), l as int);
            lemma_content_fits(self.text(), l as int);
        }
        base + if col < len { col } else { len }
    }

    /// The `(line, col)` of a char offset (clamped to the text).
    pub fn pos_from_char_idx(&self, idx: usize) -> (r: (usize, usize))
        ensures
            ({
                let i = if idx as int <= self.text().len() { idx as int } else { self.text().len() as int };
                &&& r.0 == line_of(self.text(), i)
                &&& r.1 == i - line_start_of(self.text(), r.0 as int)
            }),
    {
        let len = rope_len_chars(&self.rope);
        let idx = if idx < len { idx } else { len };
        let line = rope_char_to_line(&self.rope, idx);
        proof {
            lemma_line_of_mono(self.text(), idx as int, self.text().len() as int);
            lemma_start_before(self.text(), idx as int);
        }
        let start = rope_line_to_char(&self.rope, line);
        (line, idx - start)
    }

    /// The column of the first non-whitespace char of a line (0 when none).
    pub fn first_non_blank(&self, line: usize) -> (r: usize)
        ensures
            r == first_nonws(line_content(self.text(), line as int), 0),
    {
        let t = self.line_chars(line);
        let mut i: usize = 0;
        while i < t.len()
            invariant
                i <= t@.len(),
                t@ == line_content(self.text(), line as int),
                first_nonws(t@, i as int) == first_nonws(t@, 0),
            decreases t@.len() - i,
        {
            if !crate::text::is_whitespace(t[i]) {
                return i;
            }
            i += 1;
        }
        0
    }

    /// The column clamped for Insert mode: at most the line length.
    pub fn clamp_col_insert(&self, line: usize, col: usize) -> (r: usize)
        ensures
            r == if (col as int) < line_content(self.text(), line as int).len() { col as int } else { line_content(self.text(), line as int).len() as int },
    {
        let len = self.line_len(line);
        if col < len { col } else { len }
    }

    /// The column clamped for Normal-mode display: on the last char at most
    /// (0 for an empty line), snapped to the start of its grapheme cluster.
    pub fn clamp_col_normal(&self, line: usize, col: usize) -> (r: usize)
        ensures
            line_content(self.text(), line as int).len() == 0 ==> r == 0,
            line_content(self.text(), line as int).len() > 0 ==> exists|k: int| #[trigger] crate::grapheme::floor_index(
                line_content(self.text(), line as int),
                last_col_clamp(line_content(self.text(), line as int), col as int),
                k,
            ) && r == crate::grapheme::boundary(line_content(self.text(), line as int), k),
    {
        let len = self.line_len(line);
        if len == 0 {
            0
        } else {
            let t = self.line_text(line);
            let c = if col < len - 1 { col } else { len - 1 };
            let ts = t.as_str();
            let r = crate::grapheme::floor(ts, c);
            let ghost lc = line_content(self.text(), line as int);
            assert(ts@ == lc);
            assert(c as int == last_col_clamp(lc, col as int));
            r
        }
    }

    /// The buffer's name (see `name_spec`).
    pub fn name(&self) -> (r: String)
        ensures
            r@ == self.name_spec(),
    {
        match &self.path {
            Some(p) => path_display(p),
            None => match self.note_id {
                Some(id) => {
                    let mut v = chars_of("[Private comment #");
                    crate::markdown::push_decimal(&mut v, id as u128);
                    extend_chars(&mut v, &chars_of("]"));
                    string_from(&v)
                },
                None => string_from(&chars_of("[No Name]")),
            },
        }
    }

    /// Whether the buffer differs from what was last loaded or saved. This
    /// compares content, so undoing back to exactly the saved text is clean
    /// again.
    pub fn is_modified(&self) -> (r: bool)
        ensures
            r == modified(self.history()),
    {
        !rope_eq(&self.rope, &self.saved_snapshot)
    }

    /// Records the current text as saved (on disk).
    pub fn mark_saved(&mut self)
        ensures
            final(self).history() == save_model(old(self).history()),
            final(self).disk() == Some(old(self).text()),
            final(self).edit_seq == old(self).edit_seq,
            final(self).folds == old(self).folds,
    {
        self.saved_snapshot = rope_clone(&self.rope);
        self.disk_text = Some(rope_to_string(&self.rope));
    }

    /// Takes `text` (as read from disk) as the saved baseline.
    pub fn resource_baseline(&mut self, text: String)
        ensures
            final(self).history() == (History { saved: text@, ..old(self).history() }),
            final(self).disk() == Some(text@),
    {
        self.saved_snapshot = rope_from_str(text.as_str());
        self.disk_text = Some(text);
    }

    /// Opens an undo transaction at the current text and cursor, unless
    /// one is already open.
    pub fn begin_edit(&mut self)
        ensures
            final(self).history() == begin_model(old(self).history()),
            final(self).undo_cursors() == old(self).undo_cursors(),
            final(self).redo_cursors() == old(self).redo_cursors(),
            final(self).pending_cursor() == if old(self).pending_cursor() is None {
                Some((old(self).cursor_line, old(self).cursor_col))
            } else {
                old(self).pending_cursor()
            },
            final(self).edit_seq == old(self).edit_seq,
            final(self).folds == old(self).folds,
            final(self).disk() == old(self).disk(),
            final(self).cursor_line == old(self).cursor_line,
            final(self).cursor_col == old(self).cursor_col,
            final(self).same_settings(old(self)),
            final(self).same_view(old(self)),
    {
        if self.pending_undo.is_none() {
            self.pending_undo = Some(UndoState {
                rope: rope_clone(&self.rope),
                cursor: (self.cursor_line, self.cursor_col),
            });
        }
    }

    /// Commits the transaction opened by `begin_edit`, unless the content
    /// is unchanged -- a no-op edit must not push an undo entry or discard
    /// redo history.
    pub fn commit_edit(&mut self)
        ensures
            final(self).history() == commit_model(old(self).history()),
            final(self).pending_cursor() is None,
            old(self).pending_text() matches Some(p) && p != old(self).text() ==> {
                &&& final(self).undo_cursors() == old(self).undo_cursors().push(old(self).pending_cursor()->0)
                &&& final(self).redo_cursors() == Seq::<(usize, usize)>::empty()
            },
            !(old(self).pending_text() matches Some(p) && p != old(self).text()) ==> {
                &&& final(self).undo_cursors() == old(self).undo_cursors()
                &&& final(self).redo_cursors() == old(self).redo_cursors()
            },
            final(self).edit_seq == old(self).edit_seq,
            final(self).folds == old(self).folds,
            final(self).disk() == old(self).disk(),
            final(self).cursor_line == old(self).cursor_line,
            final(self).cursor_col == old(self).cursor_col,
            final(self).same_settings(old(self)),
            final(self).same_view(old(self)),
    {
        let ghost h0 = self.history();
        let taken = self.pending_undo.take();
        if let Some(state) = taken {
            if rope_eq(&state.rope, &self.rope) {
                return;
            }
            let ghost u0 = self.undo_stack@;
            self.undo_stack.push(state);
            assert(self.undo_texts() =~= h0.undo.push(rope_text(state.rope)));
            assert(self.undo_cursors() =~= old(self).undo_cursors().push(state.cursor));
            self.redo_stack.clear();
            assert(self.redo_texts() =~= Seq::<Seq<char>>::empty());
            assert(self.redo_cursors() =~= Seq::<(usize, usize)>::empty());
        }
    }

    /// Restores the newest undo state (clamping the cursor to it); false
    /// when there is nothing to undo.
    pub fn undo(&mut self) -> (r: bool)
        requires
            old(self).edit_seq < u64::MAX,
        ensures
            r == (old(self).undo_texts().len() > 0),
            final(self).history() == undo_model(old(self).history()),
            final(self).edit_seq == if r { old(self).edit_seq + 1 } else { old(self).edit_seq as int },
            final(self).folds == old(self).folds,
            final(self).disk() == old(self).disk(),
            !r ==> *final(self) == *old(self),
            r ==> final(self).restored_cursor(old(self).undo_cursors().last()),
            r ==> final(self).undo_cursors() == old(self).undo_cursors().drop_last(),
            r ==> final(self).redo_cursors() == old(self).redo_cursors().push((old(self).cursor_line, old(self).cursor_col)),
            final(self).same_view(old(self)),
            final(self).same_settings(old(self)),
    {
        let ghost h0 = self.history();
        if self.undo_stack.len() == 0 {
            return false;
        }
        match self.undo_stack.pop() {
            Some(state) => {
                assert(self.undo_texts() =~= h0.undo.drop_last());
                assert(self.undo_cursors() =~= old(self).undo_cursors().drop_last());
                assert(state.cursor == old(self).undo_cursors().last());
                let current = UndoState {
                    rope: rope_clone(&self.rope),
                    cursor: (self.cursor_line, self.cursor_col),
                };
                self.redo_stack.push(current);
                assert(self.redo_texts() =~= h0.redo.push(h0.text));
                assert(self.redo_cursors() =~= old(self).redo_cursors().push((old(self).cursor_line, old(self).cursor_col)));
                self.rope = state.rope;
                let lc = self.line_count();
                self.cursor_line = if state.cursor.0 < lc - 1 { state.cursor.0 } else { lc - 1 };
                self.cursor_col = self.clamp_col_normal(self.cursor_line, state.cursor.1);
                self.edit_seq = self.edit_seq + 1;
                true
            },
            None => false,
        }
    }

    /// Restores the newest redo state (clamping the cursor to it); false
    /// when there is nothing to redo.
    pub fn redo(&mut self) -> (r: bool)
        requires
            old(self).edit_seq < u64::MAX,
        ensures
            r == (old(self).redo_texts().len() > 0),
            final(self).history() == redo_model(old(self).history()),
            final(self).edit_seq == if r { old(self).edit_seq + 1 } else { old(self).edit_seq as int },
            final(self).folds == old(self).folds,
            final(self).disk() == old(self).disk(),
            !r ==> *final(self) == *old(self),
            r ==> final(self).restored_cursor(old(self).redo_cursors().last()),
            r ==> final(self).redo_cursors() == old(self).redo_cursors().drop_last(),
            r ==> final(self).undo_cursors() == old(self).undo_cursors().push((old(self).cursor_line, old(self).cursor_col)),
            final(self).same_view(old(self)),
            final(self).same_settings(old(self)),
    {
        let ghost h0 = self.history();
        if self.redo_stack.len() == 0 {
            return false;
        }
        match self.redo_stack.pop() {
            Some(state) => {
                assert(self.redo_texts() =~= h0.redo.drop_last());
                assert(self.redo_cursors() =~= old(self).redo_cursors().drop_last());
                assert(state.cursor == old(self).redo_cursors().last());
                let current = UndoState {
                    rope: rope_clone(&self.rope),
                    cursor: (self.cursor_line, self.cursor_col),
                };
                self.undo_stack.push(current);
                assert(self.undo_texts() =~= h0.undo.push(h0.text));
                assert(self.undo_cursors() =~= old(self).undo_cursors().push((old(self).cursor_line, old(self).cursor_col)));
                self.rope = state.rope;
                let lc = self.line_count();
                self.cursor_line = if state.cursor.0 < lc - 1 { state.cursor.0 } else { lc - 1 };
                self.cursor_col = self.clamp_col_normal(self.cursor_line, state.cursor.1);
                self.edit_seq = self.edit_seq + 1;
                true
            },
            None => false,
        }
    }

    /// Whether the folds and the text are small enough for line arithmetic.
    pub open spec fn sizes_ok(&self) -> bool {
        &&& small(self.text().len() as int)
        &&& forall|k: int| 0 <= k < self.folds@.len() ==> small((#[trigger] self.folds@[k]).start as int) && small(self.folds@[k].end as int)
    }

    /// Shifts/grows fold line ranges through an edit that changed the line
    /// count by `delta` at `edit_line`, so folds keep covering the same
    /// logical region; folds that collapse to fewer than two lines are
    /// dropped. Only the folds change.
    fn adjust_folds_for_edit(&mut self, edit_line: usize, delta: i64)
        requires
            small(edit_line as int),
            small(old(self).text().len() as int),
            -0x1000_0000_0000_0000 < delta < 0x1000_0000_0000_0000,
            forall|k: int| 0 <= k < old(self).folds@.len() ==> small((#[trigger] old(self).folds@[k]).start as int) && small(old(self).folds@[k].end as int),
        ensures
            final(self).folds@ == if old(self).folds@.len() == 0 || delta == 0 {
                old(self).folds@
            } else {
                adjust_folds(old(self).folds@, edit_line as int, delta as int, last_line(old(self).text()))
            },
            final(self).text() == old(self).text(),
            final(self).saved_text() == old(self).saved_text(),
            final(self).saved_cursors() == old(self).saved_cursors(),
            final(self).undo_texts() == old(self).undo_texts(),
            final(self).redo_texts() == old(self).redo_texts(),
            final(self).pending_text() == old(self).pending_text(),
            final(self).edit_seq == old(self).edit_seq,
            final(self).cursor_line == old(self).cursor_line,
            final(self).cursor_col == old(self).cursor_col,
            final(self).same_settings(old(self)),
            final(self).same_view(old(self)),
            old(self).folds@.len() > 0 && delta != 0 ==> forall|k: int| 0 <= k < final(self).folds@.len() ==> (#[trigger] final(self).folds@[k]).start <= last_line(old(self).text()) && final(self).folds@[k].end <= last_line(old(self).text()),
    {
        if self.folds.len() == 0 || delta == 0 {
            return;
        }
        let last = self.line_count() - 1;
        proof {
            lemma_line_of_nonneg(self.text(), self.text().len() as int);
        }
        assert(last <= self.text().len());
        let ghost fs = self.folds@;
        let ghost f_adj = |f: Fold| adjust_fold(f, edit_line as int, delta as int, last as int);
        let ghost keep = |f: Fold| f.end > f.start;
        let mut kept: Vec<Fold> = Vec::new();
        let mut i: usize = 0;
        while i < self.folds.len()
            invariant
                i <= fs.len(),
                self.folds@ == fs,
                last as int == last_line(self.text()),
                small(last as int),
                small(edit_line as int),
                -0x1000_0000_0000_0000 < delta < 0x1000_0000_0000_0000,
                forall|k: int| 0 <= k < fs.len() ==> small((#[trigger] fs[k]).start as int) && small(fs[k].end as int),
                f_adj == (|f: Fold| adjust_fold(f, edit_line as int, delta as int, last as int)),
                keep == (|f: Fold| f.end > f.start),
                kept@ == fs.subrange(0, i as int).map_values(f_adj).filter(keep),
                forall|k: int| 0 <= k < kept@.len() ==> (#[trigger] kept@[k]).start <= last && kept@[k].end <= last,
            decreases fs.len() - i,
        {
            let f = self.folds[i];
            assert(small(f.start as int) && small(f.end as int));
            let ghost want = adjust_fold(f, edit_line as int, delta as int, last as int);
            let new_start = if f.start > edit_line {
                let fs64 = f.start as i64;
                assert(fs64 == f.start);
                let v = fs64 + delta;
                let v = if v < 0 { 0i64 } else { v };
                assert(v == shift(f.start as int, delta as int));
                if v < (last as i64) { v as usize } else { last }
            } else {
                f.start
            };
            assert(new_start == want.start);
            let new_end = if f.end >= edit_line {
                let fe64 = f.end as i64;
                assert(fe64 == f.end);
                let v = fe64 + delta;
                let v = if v < 0 { 0i64 } else { v };
                assert(v == shift(f.end as int, delta as int));
                if v < (last as i64) { v as usize } else { last }
            } else {
                if f.end < last { f.end } else { last }
            };
            assert(new_end == want.end);
            let g = Fold { start: new_start, end: new_end, closed: f.closed };
            assert(g == adjust_fold(f, edit_line as int, delta as int, last as int));
            proof {
                assert(fs.subrange(0, i + 1) =~= fs.subrange(0, i as int).push(fs[i as int]));
                assert(fs.subrange(0, i + 1).map_values(f_adj) =~= fs.subrange(0, i as int).map_values(f_adj).push(g));
                fs.subrange(0, i as int).map_values(f_adj).lemma_filter_push(g, keep);
            }
            if g.end > g.start {
                kept.push(g);
            }
            i += 1;
        }
        assert(fs.subrange(0, i as int) =~= fs);
        self.folds = kept;
    }

    /// Inserts `ch` at `(line, col)` (clamped as by `char_idx`).
    pub fn insert_char(&mut self, line: usize, col: usize, ch: char)
        requires
            old(self).edit_seq < u64::MAX,
            old(self).sizes_ok(),
            small(old(self).text().len() + 1int),
        ensures
            ({
                let idx = char_idx_spec(old(self).text(), line as int, col as int);
                &&& final(self).text() == splice(old(self).text(), idx, seq![ch])
                &&& final(self).folds@ == folds_after(old(self).folds@, old(self).text(), idx, if ch == '\n' { 1 } else { 0 }, final(self).text())
            }),
            final(self).history() == edit_model(old(self).history(), final(self).text()),
            final(self).saved_cursors() == old(self).saved_cursors(),
            final(self).edit_seq == old(self).edit_seq + 1,
            small(final(self).text().len() as int) ==> final(self).sizes_ok(),
    {
        let idx = self.char_idx(line, col);
        self.insert_char_at(idx, ch);
    }

    /// Inserts `s` at `(line, col)` (clamped as by `char_idx`).
    pub fn insert_str(&mut self, line: usize, col: usize, s: &str)
        requires
            old(self).edit_seq < u64::MAX,
            old(self).sizes_ok(),
            small(old(self).text().len() + s@.len() as int),
        ensures
            ({
                let idx = char_idx_spec(old(self).text(), line as int, col as int);
                &&& final(self).text() == splice(old(self).text(), idx, s@)
                &&& final(self).folds@ == folds_after(old(self).folds@, old(self).text(), idx, newlines(s@), final(self).text())
            }),
            final(self).history() == edit_model(old(self).history(), final(self).text()),
            final(self).saved_cursors() == old(self).saved_cursors(),
            final(self).edit_seq == old(self).edit_seq + 1,
            small(final(self).text().len() as int) ==> final(self).sizes_ok(),
    {
        let idx = self.char_idx(line, col);
        self.insert_str_at(idx, s);
    }

    /// Inserts `ch` at char offset `idx`.
    pub fn insert_char_at(&mut self, idx: usize, ch: char)
        requires
            idx <= old(self).text().len(),
            old(self).edit_seq < u64::MAX,
            old(self).sizes_ok(),
            small(old(self).text().len() + 1int),
        ensures
            final(self).text() == splice(old(self).text(), idx as int, seq![ch]),
            final(self).folds@ == folds_after(old(self).folds@, old(self).text(), idx as int, if ch == '\n' { 1 } else { 0 }, final(self).text()),
            final(self).history() == edit_model(old(self).history(), final(self).text()),
            final(self).saved_cursors() == old(self).saved_cursors(),
            final(self).edit_seq == old(self).edit_seq + 1,
            small(final(self).text().len() as int) ==> final(self).sizes_ok(),
    {
        let nl = ch == '\n' && self.folds.len() > 0;
        let edit_line = if nl { rope_char_to_line(&self.rope, idx) } else { 0 };
        proof {
            lemma_line_of_nonneg(self.text(), idx as int);
        }
        rope_insert_char(&mut self.rope, idx, ch);
        self.edit_seq = self.edit_seq + 1;
        if nl {
            self.adjust_folds_for_edit(edit_line, 1);
        }
        proof {
            lemma_last_line_le(self.text());
        }
    }

    /// Inserts `s` at char offset `idx`.
    pub fn insert_str_at(&mut self, idx: usize, s: &str)
        requires
            idx <= old(self).text().len(),
            old(self).edit_seq < u64::MAX,
            old(self).sizes_ok(),
            small(old(self).text().len() + s@.len() as int),
        ensures
            final(self).text() == splice(old(self).text(), idx as int, s@),
            final(self).folds@ == folds_after(old(self).folds@, old(self).text(), idx as int, newlines(s@), final(self).text()),
            final(self).history() == edit_model(old(self).history(), final(self).text()),
            final(self).saved_cursors() == old(self).saved_cursors(),
            final(self).edit_seq == old(self).edit_seq + 1,
            final(self).cursor_line == old(self).cursor_line,
            final(self).cursor_col == old(self).cursor_col,
            final(self).same_settings(old(self)),
            final(self).same_view(old(self)),
            small(final(self).text().len() as int) ==> final(self).sizes_ok(),
    {
        let nl: usize = if self.folds.len() == 0 { 0 } else { count_newlines(&chars_of(s)) };
        let edit_line = if nl > 0 { rope_char_to_line(&self.rope, idx) } else { 0 };
        proof {
            lemma_line_of_nonneg(self.text(), idx as int);
            lemma_newlines_le(s@);
        }
        rope_insert(&mut self.rope, idx, s);
        self.edit_seq = self.edit_seq + 1;
        if nl > 0 {
            self.adjust_folds_for_edit(edit_line, nl as i64);
        }
        proof {
            lemma_last_line_le(self.text());
        }
    }

    /// Applies char-range edits `(start, end, new text)` in the order given,
    /// each replacing its range; they run from the last range to the first
    /// (each ends where the one before it starts, or earlier), so every
    /// offset still means what it meant in the text before the first.
    pub fn apply_edits(&mut self, edits: &Vec<(usize, usize, String)>)
        requires
            old(self).edit_seq + 2 * edits@.len() < u64::MAX,
            old(self).sizes_ok(),
            edits_in_order(edits_plain(edits@), old(self).text().len() as int),
            small(old(self).text().len() + new_text_total(edits_plain(edits@))),
        ensures
            final(self).text() == edits_applied(old(self).text(), edits_plain(edits@)),
            final(self).sizes_ok(),
            final(self).edit_seq <= old(self).edit_seq + 2 * edits@.len(),
    {
        let ghost es = edits_plain(edits@);
        let ghost t0 = self.text();
        let ghost s0 = self.edit_seq;
        let mut i: usize = 0;
        assert(es.skip(0) =~= es);
        while i < edits.len()
            invariant
                i <= edits@.len(),
                es == edits_plain(edits@),
                edits_applied(self.text(), es.skip(i as int)) == edits_applied(t0, es),
                self.sizes_ok(),
                self.edit_seq <= s0 + 2 * i,
                s0 + 2 * edits@.len() < u64::MAX,
                edits_in_order(es, t0.len() as int),
                i < es.len() ==> es[i as int].1 <= self.text().len(),
                self.text().len() + new_text_total(es.skip(i as int)) <= t0.len() + new_text_total(es),
                small(t0.len() + new_text_total(es)),
            decreases edits@.len() - i,
        {
            let (a, b, t) = (&edits[i].0, &edits[i].1, &edits[i].2);
            let ghost before = self.text();
            proof {
                assert(es[i as int] == (*a as int, *b as int, t@));
                assert(es.skip(i as int)[0] == es[i as int]);
                assert(es.skip(i as int).drop_first() =~= es.skip(i + 1));
                lemma_new_text_total_nonneg(es.skip(i + 1));
            }
            self.delete_char_range(*a, *b);
            let ghost mid = self.text();
            proof {
                assert(mid =~= before.subrange(0, *a as int) + before.subrange(*b as int, before.len() as int));
            }
            self.insert_str_at(*a, t.as_str());
            proof {
                assert(self.text() =~= before.subrange(0, *a as int) + t@ + before.subrange(*b as int, before.len() as int));
                if i + 1 < es.len() {
                    assert(es[i + 1].1 <= es[i as int].0);
                }
            }
            i += 1;
        }
        proof {
            assert(es.skip(es.len() as int) =~= Seq::<(int, int, Seq<char>)>::empty());
        }
    }

    /// Deletes the chars in `start..end` (the end clamped to the text) and
    /// returns them; nothing happens for an empty range.
    pub fn delete_char_range(&mut self, start: usize, end: usize) -> (r: String)
        requires
            old(self).edit_seq < u64::MAX,
            old(self).sizes_ok(),
        ensures
            ({
                let e = if (end as int) < old(self).text().len() { end as int } else { old(self).text().len() as int };
                if start < e {
                    &&& r@ == old(self).text().subrange(start as int, e)
                    &&& final(self).text() == old(self).text().subrange(0, start as int) + old(self).text().subrange(e, old(self).text().len() as int)
                    &&& final(self).folds@ == folds_after(old(self).folds@, old(self).text(), start as int, -newlines(r@), final(self).text())
                    &&& final(self).history() == edit_model(old(self).history(), final(self).text())
                    &&& final(self).saved_cursors() == old(self).saved_cursors()
                    &&& final(self).edit_seq == old(self).edit_seq + 1
                } else {
                    &&& r@.len() == 0
                    &&& final(self).history() == old(self).history()
                    &&& final(self).saved_cursors() == old(self).saved_cursors()
                    &&& final(self).folds == old(self).folds
                    &&& final(self).edit_seq == old(self).edit_seq
                }
            }),
            final(self).sizes_ok(),
            final(self).cursor_line == old(self).cursor_line,
            final(self).cursor_col == old(self).cursor_col,
            final(self).same_settings(old(self)),
            final(self).same_view(old(self)),
    {
        if end <= start {
            return String::new();
        }
        let len = rope_len_chars(&self.rope);
        let end = if end < len { end } else { len };
        if start >= end {
            return String::new();
        }
        let text = rope_slice(&self.rope, start, end);
        let nl: usize = if self.folds.len() == 0 { 0 } else { count_newlines(&chars_of(text.as_str())) };
        let edit_line = if nl > 0 { rope_char_to_line(&self.rope, start) } else { 0 };
        proof {
            lemma_line_of_nonneg(self.text(), start as int);
            lemma_newlines_le(text@);
        }
        rope_remove(&mut self.rope, start, end);
        self.edit_seq = self.edit_seq + 1;
        if nl > 0 {
            self.adjust_folds_for_edit(edit_line, -(nl as i64));
        }
        proof {
            lemma_last_line_le(self.text());
        }
        text
    }

    /// The text in `start..end` (the end clamped to the text).
    pub fn text_range(&self, start: usize, end: usize) -> (r: String)
        ensures
            ({
                let e = if (end as int) < self.text().len() { end as int } else { self.text().len() as int };
                r@ == if e <= start { Seq::<char>::empty() } else { self.text().subrange(start as int, e) }
            }),
    {
        let len = rope_len_chars(&self.rope);
        let end = if end < len { end } else { len };
        if end <= start {
            return String::new();
        }
        rope_slice(&self.rope, start, end)
    }

    /// The closed fold that hides `line` -- `line` sits past the fold's first
    /// (still visible) row; fold ranges are clamped to the buffer.
    pub fn hidden_by_fold(&self, line: usize) -> (r: Option<Fold>)
        ensures
            r == first_hiding(self.folds@, line as int, last_line(self.text())),
    {
        let last = self.line_count() - 1;
        let ghost fs = self.folds@;
        assert(fs.subrange(0, fs.len() as int) =~= fs);
        let mut i: usize = 0;
        while i < self.folds.len()
            invariant
                i <= fs.len(),
                self.folds@ == fs,
                last == last_line(self.text()),
                first_hiding(fs, line as int, last as int) == first_hiding(fs.subrange(i as int, fs.len() as int), line as int, last as int),
            decreases fs.len() - i,
        {
            let f = self.folds[i];
            let ghost rest = fs.subrange(i as int, fs.len() as int);
            assert(rest[0] == f);
            assert(rest.drop_first() =~= fs.subrange(i + 1, fs.len() as int));
            let end = if f.end < last { f.end } else { last };
            if f.closed && f.start <= last && line > f.start && line <= end {
                return Some(f);
            }
            i += 1;
        }
        None
    }

    /// Whether `line` is hidden inside a closed fold (any row but its first).
    pub fn line_hidden(&self, line: usize) -> (r: bool)
        ensures
            r == (first_hiding(self.folds@, line as int, last_line(self.text())) is Some),
    {
        self.hidden_by_fold(line).is_some()
    }

    /// The first closed fold whose first line is exactly `line`.
    pub fn closed_fold_starting_at(&self, line: usize) -> (r: Option<Fold>)
        ensures
            r == first_closed_at(self.folds@, line as int),
    {
        let ghost fs = self.folds@;
        assert(fs.subrange(0, fs.len() as int) =~= fs);
        let mut i: usize = 0;
        while i < self.folds.len()
            invariant
                i <= fs.len(),
                self.folds@ == fs,
                first_closed_at(fs, line as int) == first_closed_at(fs.subrange(i as int, fs.len() as int), line as int),
            decreases fs.len() - i,
        {
            let f = self.folds[i];
            let ghost rest = fs.subrange(i as int, fs.len() as int);
            assert(rest[0] == f);
            assert(rest.drop_first() =~= fs.subrange(i + 1, fs.len() as int));
            if f.closed && f.start == line {
                return Some(f);
            }
            i += 1;
        }
        None
    }

    /// One visible line down from `line`: over a closed fold that starts at
    /// `line`, never into one, and never past the last line.
    pub fn visible_line_below(&self, line: usize) -> (r: usize)
        requires
            line < usize::MAX,
        ensures
            r == below_spec(self.folds@, line as int, last_line(self.text())),
    {
        let last = self.line_count() - 1;
        let mut next = match self.closed_fold_starting_at(line) {
            Some(f) => {
                let e = if f.end < last { f.end } else { last };
                e.saturating_add(1)
            },
            None => line + 1,
        };
        if let Some(f) = self.hidden_by_fold(next) {
            next = f.start;
        }
        if next < last { next } else { last }
    }

    /// One visible line up from `line`, landing on a fold's first row rather
    /// than inside it.
    pub fn visible_line_above(&self, line: usize) -> (r: usize)
        ensures
            r == above_spec(self.folds@, line as int, last_line(self.text())),
    {
        let prev = line.saturating_sub(1);
        match self.hidden_by_fold(prev) {
            Some(f) => f.start,
            None => prev,
        }
    }

    /// A cheap hash of the closed folds, so that toggling a fold changes it.
    pub fn folds_stamp(&self) -> (h: u64)
        requires
            forall|k: int| 0 <= k < self.folds@.len() ==> (#[trigger] self.folds@[k]).start < u64::MAX && self.folds@[k].end < u64::MAX,
        ensures
            h == stamp(self.folds@),
    {
        let ghost fs = self.folds@;
        let mut h: u64 = 0;
        let mut i: usize = 0;
        while i < self.folds.len()
            invariant
                i <= fs.len(),
                self.folds@ == fs,
                forall|k: int| 0 <= k < fs.len() ==> (#[trigger] fs[k]).start < u64::MAX && fs[k].end < u64::MAX,
                h == stamp(fs.subrange(0, i as int)),
            decreases fs.len() - i,
        {
            let f = self.folds[i];
            assert(fs.subrange(0, i + 1).drop_last() =~= fs.subrange(0, i as int));
            if f.closed {
                h = h.wrapping_mul(1_000_003).wrapping_add(f.start as u64 + 1);
                h = h.wrapping_mul(1_000_003).wrapping_add(f.end as u64 + 1);
            }
            i += 1;
        }
        assert(fs.subrange(0, i as int) =~= fs);
        h
    }

    /// The text as written to disk: each `\n` replaced by the buffer's line
    /// ending, a BOM in front when the buffer has one.
    pub fn encoded(&self) -> (r: String)
        ensures
            r@ == encoded_spec(self.text(), self.fileformat, self.bom),
    {
        let text = chars_of(rope_to_string(&self.rope).as_str());
        let eol = chars_of(self.fileformat.eol());
        proof {
            reveal_strlit("\n");
        }
        let mut out: Vec<char> = Vec::new();
        if self.bom {
            out.push('\u{feff}');
        }
        let ghost front = out@;
        let mut i: usize = 0;
        while i < text.len()
            invariant
                i <= text@.len(),
                text@ == self.text(),
                eol@ == eol_spec(self.fileformat),
                front == (if self.bom { seq!['\u{feff}'] } else { Seq::<char>::empty() }),
                out@ == front + with_eol(text@.subrange(0, i as int), eol@),
            decreases text@.len() - i,
        {
            assert(text@.subrange(0, i + 1).drop_last() =~= text@.subrange(0, i as int));
            let ghost before = out@;
            let ghost w = with_eol(text@.subrange(0, i as int), eol@);
            let ghost x = if text@[i as int] == '\n' { eol@ } else { seq![text@[i as int]] };
            assert(with_eol(text@.subrange(0, i + 1), eol@) == w + x);
            if text[i] == '\n' && self.fileformat != FileFormat::Unix {
                extend_chars(&mut out, eol.as_slice());
            } else {
                out.push(text[i]);
                proof {
                    reveal_strlit("\n");
                }
                assert(text@[i as int] == '\n' ==> x =~= seq!['\n']);
            }
            assert(out@ =~= before + x);
            assert(out@ =~= front + (w + x));
            i += 1;
        }
        assert(text@.subrange(0, i as int) =~= text@);
        string_from(out.as_slice())
    }

    /// The bytes written to disk on save: `encoded()` in the buffer's
    /// encoding.
    pub fn encoded_bytes(&self) -> (r: Vec<u8>)
        ensures
            r@ == encode_spec(encoded_spec(self.text(), self.fileformat, self.bom), self.encoding),
    {
        let e = self.encoded();
        encode_bytes(e.as_str(), self.encoding)
    }

    /// Whether the file's current bytes (`None` when it has no name or
    /// cannot be read) differ from the text last read from or written to
    /// disk, compared after decoding and normalizing them the same way.
    pub fn changed_on_disk(&self, bytes: Option<Vec<u8>>) -> (r: bool)
        ensures
            r == match bytes {
                Some(b) => self.disk() != Some(normalize_spec(decode_spec(b@).0).0),
                None => false,
            },
    {
        match bytes {
            Some(b) => {
                let (raw, _) = decode_bytes(&b);
                let (content, _, _) = normalize_content(raw.as_str());
                match &self.disk_text {
                    Some(d) => !crate::text::chars_eq(&chars_of(d.as_str()), &chars_of(content.as_str())),
                    None => true,
                }
            },
            None => false,
        }
    }

    /// The checks a plain save makes before writing: the buffer needs a
    /// file name, the file must not be read-only, and its content on disk
    /// (`None` when it does not exist) must still be what was last read or
    /// written, compared after decoding and normalizing.
    pub fn check_save(&self, read_only: bool, on_disk: Option<Vec<u8>>) -> (r: Result<(), SaveError>)
        ensures
            r == if self.path is None {
                Err(SaveError::NoFileName)
            } else if read_only {
                Err(SaveError::ReadOnly)
            } else if (match on_disk {
                Some(b) => Some(normalize_spec(decode_spec(b@).0).0),
                None => None::<Seq<char>>,
            }) != self.disk() {
                Err(SaveError::ChangedOnDisk)
            } else {
                Ok(())
            },
    {
        if self.path.is_none() {
            return Err(SaveError::NoFileName);
        }
        if read_only {
            return Err(SaveError::ReadOnly);
        }
        let same = match on_disk {
            Some(b) => {
                let (raw, _) = decode_bytes(&b);
                let (content, _, _) = normalize_content(raw.as_str());
                match &self.disk_text {
                    Some(d) => crate::text::chars_eq(&chars_of(d.as_str()), &chars_of(content.as_str())),
                    None => false,
                }
            },
            None => self.disk_text.is_none(),
        };
        if same { Ok(()) } else { Err(SaveError::ChangedOnDisk) }
    }

    /// Re-reads the buffer from the file's bytes, discarding in-memory
    /// changes and the undo/redo history (a reload is not undoable); the
    /// cursor and view are clamped to the new text.
    pub fn reload_from(&mut self, bytes: &[u8])
        requires
            old(self).edit_seq < u64::MAX,
        ensures
            ({
                let d = decode_spec(bytes@);
                let n = normalize_spec(d.0);
                &&& final(self).history() == reloaded_history(bytes@)
                &&& final(self).disk() == Some(n.0)
                &&& final(self).fileformat == n.1
                &&& final(self).bom == n.2
                &&& final(self).encoding == d.1
                &&& final(self).cursor_line == if old(self).cursor_line < num_lines(n.0) - 1 { old(self).cursor_line as int } else { num_lines(n.0) - 1 }
                &&& final(self).cursor_col == if (old(self).cursor_col as int) < line_content(n.0, final(self).cursor_line as int).len() { old(self).cursor_col as int } else { line_content(n.0, final(self).cursor_line as int).len() as int }
                &&& final(self).desired_col == final(self).cursor_col
                &&& final(self).top_line == if old(self).top_line < num_lines(n.0) - 1 { old(self).top_line as int } else { num_lines(n.0) - 1 }
                &&& final(self).top_wrap == 0
            }),
            final(self).edit_seq == old(self).edit_seq + 1,
            final(self).folds == old(self).folds,
    {
        let (raw, encoding) = decode_bytes(bytes);
        let (content, fileformat, bom) = normalize_content(raw.as_str());
        self.fileformat = fileformat;
        self.bom = bom;
        self.encoding = encoding;
        self.rope = rope_from_str(content.as_str());
        self.saved_snapshot = rope_clone(&self.rope);
        self.disk_text = Some(content);
        self.undo_stack.clear();
        self.redo_stack.clear();
        self.pending_undo = None;
        assert(self.undo_texts() =~= Seq::<Seq<char>>::empty());
        assert(self.redo_texts() =~= Seq::<Seq<char>>::empty());
        self.edit_seq = self.edit_seq + 1;
        let lines = rope_len_lines(&self.rope);
        proof {
            lemma_line_of_nonneg(self.text(), self.text().len() as int);
        }
        let max_line = lines - 1;
        self.cursor_line = if self.cursor_line < max_line { self.cursor_line } else { max_line };
        let len = self.line_len(self.cursor_line);
        self.cursor_col = if self.cursor_col < len { self.cursor_col } else { len };
        self.desired_col = self.cursor_col;
        self.top_line = if self.top_line < max_line { self.top_line } else { max_line };
        self.top_wrap = 0;
    }

    /// Sets the buffer's indent settings (modeline, then `.editorconfig`,
    /// then detection, then the configured default), its line ending from
    /// `.editorconfig` when that gives one, and, for a buffer with a file,
    /// the extra `.editorconfig` settings. `editorconfigs` are the
    /// `.editorconfig` files from the file's directory upwards (nearest
    /// first) and `name` the file's name, `None` when it has none.
    pub fn apply_indent(&mut self, editorconfigs: &[String], name: Option<&str>, tabstop: usize, shiftwidth: usize, expandtab: bool)
        ensures
            ({
                let nm = match name { Some(n) => Some(n@), None => None::<Seq<char>> };
                let ecs = crate::text::views(editorconfigs@);
                let st = crate::indent::resolve_spec(ecs, nm, old(self).text(), tabstop, shiftwidth, expandtab);
                &&& final(self).tabstop == st.tabstop
                &&& final(self).shiftwidth == st.shiftwidth
                &&& final(self).expandtab == st.expandtab
                &&& final(self).indent_source == st.source
                &&& final(self).fileformat == match (match nm { Some(n) => crate::indent::editorconfig_eol_spec(ecs, n), None => None }) {
                    Some(f) => f,
                    None => old(self).fileformat,
                }
                &&& if old(self).path is Some {
                    let x = match nm { Some(n) => crate::indent::editorconfig_extras_spec(ecs, n), None => crate::indent::no_extras() };
                    &&& final(self).ec_trim_trailing == x.trim_trailing
                    &&& final(self).ec_final_newline == x.final_newline
                    &&& final(self).ec_max_line_length == x.max_line_length
                } else {
                    &&& final(self).ec_trim_trailing == old(self).ec_trim_trailing
                    &&& final(self).ec_final_newline == old(self).ec_final_newline
                    &&& final(self).ec_max_line_length == old(self).ec_max_line_length
                }
            }),
            final(self).history() == old(self).history(),
            final(self).edit_seq == old(self).edit_seq,
            final(self).folds == old(self).folds,
    {
        let text = rope_to_string(&self.rope);
        let settings = crate::indent::resolve(editorconfigs, name, text.as_str(), tabstop, shiftwidth, expandtab);
        self.tabstop = settings.tabstop;
        self.shiftwidth = settings.shiftwidth;
        self.expandtab = settings.expandtab;
        self.indent_source = settings.source;
        if let Some(n) = name {
            if let Some(eol) = crate::indent::editorconfig_eol(editorconfigs, n) {
                self.fileformat = eol;
            }
        }
        if self.path.is_some() {
            let extras = match name {
                Some(n) => crate::indent::editorconfig_extras(editorconfigs, n),
                None => crate::indent::EcExtras { trim_trailing: None, final_newline: None, max_line_length: None },
            };
            self.ec_trim_trailing = extras.trim_trailing;
            self.ec_final_newline = extras.final_newline;
            self.ec_max_line_length = extras.max_line_length;
        }
    }

    /// The undo history (oldest first) as text snapshots with their cursors.
    pub fn undo_snapshots(&self) -> (r: Vec<(String, (usize, usize))>)
        ensures
            r@.len() == self.undo_texts().len(),
            forall|k: int| 0 <= k < r@.len() ==> (#[trigger] r@[k]).0@ == self.undo_texts()[k] && r@[k].1 == self.undo_stack@[k].cursor,
    {
        let mut out: Vec<(String, (usize, usize))> = Vec::new();
        let mut i: usize = 0;
        while i < self.undo_stack.len()
            invariant
                i <= self.undo_stack@.len(),
                out@.len() == i,
                forall|k: int| 0 <= k < i ==> (#[trigger] out@[k]).0@ == self.undo_texts()[k] && out@[k].1 == self.undo_stack@[k].cursor,
            decreases self.undo_stack@.len() - i,
        {
            let t = rope_to_string(&self.undo_stack[i].rope);
            out.push((t, self.undo_stack[i].cursor));
            i += 1;
        }
        out
    }

    /// Replaces the undo history with the given snapshots (oldest first)
    /// and clears the redo history -- used right after loading a file.
    pub fn restore_undo_snapshots(&mut self, snapshots: Vec<(String, (usize, usize))>)
        ensures
            final(self).undo_texts().len() == snapshots@.len(),
            forall|k: int| 0 <= k < snapshots@.len() ==> final(self).undo_texts()[k] == (#[trigger] snapshots@[k]).0@ && final(self).undo_stack@[k].cursor == snapshots@[k].1,
            final(self).redo_texts().len() == 0,
            final(self).text() == old(self).text(),
            final(self).saved_text() == old(self).saved_text(),
            final(self).pending_text() == old(self).pending_text(),
            final(self).edit_seq == old(self).edit_seq,
    {
        let mut stack: Vec<UndoState> = Vec::new();
        let mut i: usize = 0;
        while i < snapshots.len()
            invariant
                i <= snapshots@.len(),
                stack@.len() == i,
                forall|k: int| 0 <= k < i ==> rope_text((#[trigger] stack@[k]).rope) == snapshots@[k].0@ && stack@[k].cursor == snapshots@[k].1,
            decreases snapshots@.len() - i,
        {
            let rope = rope_from_str(snapshots[i].0.as_str());
            stack.push(UndoState { rope, cursor: snapshots[i].1 });
            i += 1;
        }
        self.undo_stack = stack;
        self.redo_stack.clear();
    }
}

/// Why a plain save refused to write.
#[derive(Clone, Copy, Debug, PartialEq, Eq)]
pub enum SaveError {
    NoFileName,
    ReadOnly,
    ChangedOnDisk,
}

/// The first fold of `fs` that is closed and hides `line` (past its first
/// row, its range clamped to `last`).
pub open spec fn first_hiding(fs: Seq<Fold>, line: int, last: int) -> Option<Fold>
    decreases fs.len(),
{
    if fs.len() == 0 {
        None
    } else {
        let f = fs[0];
        let end = if f.end < last { f.end as int } else { last };
        if f.closed && f.start <= last && line > f.start && line <= end {
            Some(f)
        } else {
            first_hiding(fs.drop_first(), line, last)
        }
    }
}

/// The first fold of `fs` that is closed and starts at `line`.
pub open spec fn first_closed_at(fs: Seq<Fold>, line: int) -> Option<Fold>
    decreases fs.len(),
{
    if fs.len() == 0 {
        None
    } else if fs[0].closed && fs[0].start == line {
        Some(fs[0])
    } else {
        first_closed_at(fs.drop_first(), line)
    }
}

/// The line one visible step below `line`.
pub open spec fn below_spec(fs: Seq<Fold>, line: int, last: int) -> int {
    let next = match first_closed_at(fs, line) {
        Some(f) => {
            let e = if f.end < last { f.end as int } else { last };
            if e < usize::MAX { e + 1 } else { e }
        },
        None => line + 1,
    };
    let next2 = match first_hiding(fs, next, last) {
        Some(f) => f.start as int,
        None => next,
    };
    if next2 < last { next2 } else { last }
}

/// The index of the first non-whitespace char of `t` at or after `i`, or 0
/// when there is none.
pub open spec fn first_nonws(t: Seq<char>, i: int) -> int
    decreases t.len() - i,
{
    if i >= t.len() {
        0
    } else if !crate::text::is_ws(t[i]) {
        i
    } else {
        first_nonws(t, i + 1)
    }
}

/// The line one visible step above `line`.
pub open spec fn above_spec(fs: Seq<Fold>, line: int, last: int) -> int {
    let prev = if line > 0 { line - 1 } else { 0 };
    match first_hiding(fs, prev, last) {
        Some(f) => f.start as int,
        None => prev,
    }
}

/// The fold stamp: over the closed folds in order, the hash is multiplied
/// by 1000003 and the fold's start + 1, then its end + 1, added, wrapping.
pub open spec fn stamp(fs: Seq<Fold>) -> u64
    decreases fs.len(),
{
    if fs.len() == 0 {
        0
    } else {
        let h = stamp(fs.drop_last());
        let f = fs.last();
        if f.closed {
            let h1 = vstd::wrapping::u64_specs::wrapping_add(vstd::wrapping::u64_specs::wrapping_mul(h, 1_000_003), (f.start + 1) as u64);
            vstd::wrapping::u64_specs::wrapping_add(vstd::wrapping::u64_specs::wrapping_mul(h1, 1_000_003), (f.end + 1) as u64)
        } else {
            h
        }
    }
}

/// `s` with each `\n` replaced by `eol`.
pub open spec fn with_eol(s: Seq<char>, eol: Seq<char>) -> Seq<char>
    decreases s.len(),
{
    if s.len() == 0 {
        seq![]
    } else {
        with_eol(s.drop_last(), eol) + if s.last() == '\n' { eol } else { seq![s.last()] }
    }
}

proof fn lemma_with_eol_concat(a: Seq<char>, b: Seq<char>, eol: Seq<char>)
    ensures
        with_eol(a + b, eol) == with_eol(a, eol) + with_eol(b, eol),
    decreases b.len(),
{
    if b.len() == 0 {
        assert(a + b =~= a);
        assert(with_eol(a, eol) + with_eol(b, eol) =~= with_eol(a, eol));
    } else {
        lemma_with_eol_concat(a, b.drop_last(), eol);
        assert((a + b).drop_last() =~= a + b.drop_last());
        assert((a + b).last() == b.last());
        assert(with_eol(a + b, eol) =~= with_eol(a, eol) + with_eol(b, eol));
    }
}

/// Each char's piece of `with_eol`.
pub open spec fn eol_piece(c: char, eol: Seq<char>) -> Seq<char> {
    if c == '\n' { eol } else { seq![c] }
}

proof fn lemma_with_eol_front(c: char, t: Seq<char>, eol: Seq<char>)
    ensures
        with_eol(seq![c] + t, eol) == eol_piece(c, eol) + with_eol(t, eol),
{
    lemma_with_eol_concat(seq![c], t, eol);
    assert(seq![c].drop_last() =~= Seq::<char>::empty());
    assert(with_eol(Seq::<char>::empty(), eol) =~= Seq::<char>::empty());
    assert(with_eol(seq![c], eol) =~= eol_piece(c, eol));
}

/// `\n` as its own line ending changes nothing.
proof fn lemma_with_lf(t: Seq<char>)
    ensures
        with_eol(t, seq!['\n']) == t,
    decreases t.len(),
{
    if t.len() > 0 {
        lemma_with_lf(t.drop_last());
        assert(t.drop_last().push(t.last()) =~= t);
    }
}

/// `\r` endings read back by `cr_to_lf` give the text back, and hold no `\n`.
proof fn lemma_with_cr(t: Seq<char>)
    requires
        !t.contains('\r'),
    ensures
        cr_to_lf(with_eol(t, seq!['\r'])) == t,
        !with_eol(t, seq!['\r']).contains('\n'),
        t.contains('\n') ==> with_eol(t, seq!['\r']).contains('\r'),
        with_eol(t, seq!['\r']).len() == t.len(),
    decreases t.len(),
{
    if t.len() > 0 {
        let d = t.drop_last();
        assert(!d.contains('\r')) by {
            if d.contains('\r') {
                let k = choose|k: int| 0 <= k < d.len() && d[k] == '\r';
                assert(t[k] == '\r');
            }
        }
        lemma_with_cr(d);
        let w = with_eol(t, seq!['\r']);
        let wd = with_eol(d, seq!['\r']);
        assert(t.last() != '\r') by {
            assert(t[t.len() - 1] == t.last());
        }
        assert(cr_to_lf(w) =~= t) by {
            assert forall|k: int| 0 <= k < t.len() implies cr_to_lf(w)[k] == t[k] by {
                if k < t.len() - 1 {
                    assert(w[k] == wd[k]);
                    assert(cr_to_lf(wd)[k] == d[k]);
                }
            }
        }
        if w.contains('\n') {
            let k = choose|k: int| 0 <= k < w.len() && w[k] == '\n';
            if k < wd.len() {
                assert(wd[k] == '\n');
            }
        }
        if t.contains('\n') {
            let k = choose|k: int| 0 <= k < t.len() && t[k] == '\n';
            if k < t.len() - 1 {
                assert(d[k] == '\n');
                let j = choose|j: int| 0 <= j < wd.len() && wd[j] == '\r';
                assert(w[j] == '\r');
            } else {
                assert(w[w.len() - 1] == '\r');
            }
        }
    }
}

/// `crlf_to_lf` from `i` reads only the text from `i` on.
proof fn lemma_crlf_shift(s: Seq<char>, i: int)
    requires
        0 <= i <= s.len(),
    ensures
        crlf_to_lf(s, i) == crlf_to_lf(s.subrange(i, s.len() as int), 0),
    decreases s.len() - i,
{
    let r = s.subrange(i, s.len() as int);
    if i < s.len() {
        if s[i] == '\r' && i + 1 < s.len() && s[i + 1] == '\n' {
            lemma_crlf_shift(s, i + 2);
            lemma_crlf_shift(r, 2);
            assert(r.subrange(2, r.len() as int) =~= s.subrange(i + 2, s.len() as int));
        } else {
            lemma_crlf_shift(s, i + 1);
            lemma_crlf_shift(r, 1);
            assert(r.subrange(1, r.len() as int) =~= s.subrange(i + 1, s.len() as int));
        }
    }
}

/// `\r\n` endings read back by `crlf_to_lf` give the text back.
proof fn lemma_with_crlf(t: Seq<char>)
    requires
        !t.contains('\r'),
    ensures
        crlf_to_lf(with_eol(t, seq!['\r', '\n']), 0) == t,
    decreases t.len(),
{
    let eol = seq!['\r', '\n'];
    if t.len() > 0 {
        let rest = t.drop_first();
        assert(!rest.contains('\r')) by {
            if rest.contains('\r') {
                let k = choose|k: int| 0 <= k < rest.len() && rest[k] == '\r';
                assert(t[k + 1] == '\r');
            }
        }
        assert(t[0] != '\r');
        lemma_with_crlf(rest);
        assert(seq![t[0]] + rest =~= t);
        lemma_with_eol_front(t[0], rest, eol);
        let w = with_eol(t, eol);
        let p = eol_piece(t[0], eol);
        assert(w == p + with_eol(rest, eol));
        lemma_crlf_shift(w, p.len() as int);
        assert(w.subrange(p.len() as int, w.len() as int) =~= with_eol(rest, eol));
        assert(crlf_to_lf(w, 0) =~= seq![t[0]] + crlf_to_lf(with_eol(rest, eol), 0));
    } else {
        assert(crlf_to_lf(with_eol(t, eol), 0) =~= t);
    }
}

/// A buffer's text saved (its line ending in place of each `\n`, its BOM
/// first) reads back as the same text, format and BOM flag, when the text
/// has no `\r`, does not start with U+FEFF, and holds a `\n` unless the
/// format is Unix (without one, the format cannot be told).
pub proof fn law_save_load_round_trip(t: Seq<char>, f: FileFormat, bom: bool)
    requires
        !t.contains('\r'),
        !(t.len() > 0 && t[0] == '\u{feff}'),
        f == FileFormat::Unix || t.contains('\n'),
    ensures
        normalize_spec(encoded_spec(t, f, bom)) == (t, f, bom),
{
    reveal_strlit("\n");
    reveal_strlit("\r\n");
    reveal_strlit("\r");
    let eol = eol_spec(f);
    let w = with_eol(t, eol);
    assert(eol.len() > 0 && eol[0] != '\u{feff}');
    if t.len() > 0 {
        lemma_with_eol_front(t[0], t.drop_first(), eol);
        assert(seq![t[0]] + t.drop_first() =~= t);
        assert(w[0] != '\u{feff}');
    }
    let raw = encoded_spec(t, f, bom);
    if bom {
        assert(raw.drop_first() =~= w);
    } else {
        assert(raw =~= w);
    }
    match f {
        FileFormat::Unix => {
            assert(eol =~= seq!['\n']);
            lemma_with_lf(t);
            assert(!has_crlf(t));
        },
        FileFormat::Mac => {
            assert(eol =~= seq!['\r']);
            lemma_with_cr(t);
            assert(!has_crlf(w));
        },
        FileFormat::Dos => {
            assert(eol =~= seq!['\r', '\n']);
            lemma_with_crlf(t);
            let k = choose|k: int| 0 <= k < t.len() && t[k] == '\n';
            assert(t =~= t.subrange(0, k) + (seq!['\n'] + t.subrange(k + 1, t.len() as int)));
            lemma_with_eol_concat(t.subrange(0, k), seq!['\n'] + t.subrange(k + 1, t.len() as int), eol);
            lemma_with_eol_front('\n', t.subrange(k + 1, t.len() as int), eol);
            let i = with_eol(t.subrange(0, k), eol).len() as int;
            assert(w[i] == '\r' && w[i + 1] == '\n');
            assert(has_crlf(w));
        },
    }
}

/// The text as written to disk: `\n` replaced by the format's line ending,
/// a BOM in front when there is one.
pub open spec fn encoded_spec(text: Seq<char>, f: FileFormat, bom: bool) -> Seq<char> {
    (if bom { seq!['\u{feff}'] } else { Seq::<char>::empty() }) + with_eol(text, eol_spec(f))
}

/// `t` spliced into `s` at char offset `i`.
pub open spec fn splice(s: Seq<char>, i: int, t: Seq<char>) -> Seq<char> {
    s.subrange(0, i) + t + s.subrange(i, s.len() as int)
}

/// The folds after an edit at char offset `idx` of `before` that added
/// `delta` line breaks (removed, when negative), leaving `after`.
pub open spec fn folds_after(fs: Seq<Fold>, before: Seq<char>, idx: int, delta: int, after: Seq<char>) -> Seq<Fold> {
    if fs.len() == 0 || delta == 0 {
        fs
    } else {
        adjust_folds(fs, line_of(before, idx), delta, last_line(after))
    }
}

/// `v + delta`, clamped at 0.
pub open spec fn shift(v: int, delta: int) -> int {
    if v + delta < 0 { 0 } else { v + delta }
}

/// A fold moved through an edit that changed the line count by `delta` at
/// `edit_line`: a start after the edit line and an end at or after it
/// shift by `delta`; every bound is clamped to the last line.
pub open spec fn adjust_fold(f: Fold, edit_line: int, delta: int, last: int) -> Fold {
    let start = if f.start > edit_line {
        let v = shift(f.start as int, delta);
        if v < last { v } else { last }
    } else {
        f.start as int
    };
    let end = if f.end >= edit_line {
        let v = shift(f.end as int, delta);
        if v < last { v } else { last }
    } else {
        if f.end < last { f.end as int } else { last }
    };
    Fold { start: start as usize, end: end as usize, closed: f.closed }
}

/// The folds kept through an edit: each adjusted, those collapsed to fewer
/// than two lines dropped.
pub open spec fn adjust_folds(fs: Seq<Fold>, edit_line: int, delta: int, last: int) -> Seq<Fold> {
    fs.map_values(|f: Fold| adjust_fold(f, edit_line, delta, last)).filter(|f: Fold| f.end > f.start)
}

/// Values small enough that line arithmetic cannot overflow.
pub open spec fn small(v: int) -> bool {
    0 <= v < 0x1000_0000_0000_0000
}

/// The number of `\n` chars in `s`.
pub open spec fn newlines(s: Seq<char>) -> int
    decreases s.len(),
{
    if s.len() == 0 {
        0
    } else {
        newlines(s.drop_last()) + if s.last() == '\n' { 1int } else { 0int }
    }
}

proof fn lemma_newlines_le(s: Seq<char>)
    ensures
        0 <= newlines(s) <= s.len(),
    decreases s.len(),
{
    if s.len() > 0 {
        lemma_newlines_le(s.drop_last());
    }
}

fn count_newlines(s: &Vec<char>) -> (n: usize)
    ensures
        n == newlines(s@),
{
    let mut n: usize = 0;
    let mut i: usize = 0;
    while i < s.len()
        invariant
            i <= s@.len(),
            n == newlines(s@.subrange(0, i as int)),
            n <= i,
        decreases s@.len() - i,
    {
        assert(s@.subrange(0, i + 1).drop_last() =~= s@.subrange(0, i as int));
        if s[i] == '\n' {
            n += 1;
        }
        i += 1;
    }
    assert(s@.subrange(0, i as int) =~= s@);
    n
}

/// A larger column gives a char offset at least as large, within the text.
pub proof fn lemma_char_idx_mono(s: Seq<char>, line: int, c1: int, c2: int)
    requires
        0 <= line,
        0 <= c1 <= c2,
    ensures
        0 <= char_idx_spec(s, line, c1) <= char_idx_spec(s, line, c2) <= s.len(),
{
    lemma_line_of_nonneg(s, s.len() as int);
    let l = if line < num_lines(s) - 1 { line } else { num_lines(s) - 1 };
    lemma_line_start(s, l);
    lemma_content_fits(s, l);
}

pub(crate) proof fn lemma_last_line_le(s: Seq<char>)
    ensures
        0 <= last_line(s) <= s.len(),
{
    lemma_line_of_nonneg(s, s.len() as int);
}

pub(crate) proof fn lemma_content_fits(s: Seq<char>, l: int)
    requires
        0 <= l < num_lines(s),
    ensures
        line_start_of(s, l) + line_content(s, l).len() <= s.len(),
{
    lemma_line_start(s, l);
}

proof fn lemma_start_before(s: Seq<char>, c: int)
    requires
        0 <= c <= s.len(),
    ensures
        line_start_of(s, line_of(s, c)) <= c,
        line_of(s, c) < num_lines(s),
{
    lemma_line_of_mono(s, c, s.len() as int);
    lemma_line_of_nonneg(s, c);
    let i = line_of(s, c);
    lemma_line_start(s, i);
    let p = line_start_of(s, i);
    if p > c {
        if i > 0 {
            lemma_line_of_strict(s, c, p);
        }
    }
}

/// Undo after a committed edit that changed the text gives back the text
/// from before the edit, and redo then gives back the edited text.
pub proof fn law_undo_restores_edit(h: History, t: Seq<char>)
    requires
        h.pending is None,
        t != h.text,
    ensures
        ({
            let done = commit_model(edit_model(begin_model(h), t));
            &&& undo_model(done).text == h.text
            &&& undo_model(done).undo == h.undo
            &&& redo_model(undo_model(done)).text == t
        }),
{
    let done = commit_model(edit_model(begin_model(h), t));
    assert(done.undo.drop_last() =~= h.undo);
}

/// Redo right after undo gives back the state before the undo.
pub proof fn law_redo_after_undo(h: History)
    requires
        h.undo.len() > 0,
    ensures
        redo_model(undo_model(h)) == h,
{
    let u = undo_model(h);
    assert(u.redo.drop_last() =~= h.redo);
    assert(u.undo.push(u.text) =~= h.undo);
    assert(redo_model(u).redo =~= h.redo);
}

/// Undo right after redo gives back the state before the redo.
pub proof fn law_undo_after_redo(h: History)
    requires
        h.redo.len() > 0,
    ensures
        undo_model(redo_model(h)) == h,
{
    let r = redo_model(h);
    assert(r.redo.push(r.text) =~= h.redo);
    assert(undo_model(r).undo =~= h.undo);
}

/// With nothing to undo (redo), undo (redo) changes nothing.
pub proof fn law_empty_history_is_noop(h: History)
    ensures
        h.undo.len() == 0 ==> undo_model(h) == h,
        h.redo.len() == 0 ==> redo_model(h) == h,
{
}

/// The history a reload leaves (see `Buffer::reload_from`): the decoded,
/// normalized file text, saved, with nothing to undo or redo, so undo and
/// redo change nothing.
pub open spec fn reloaded_history(bytes: Seq<u8>) -> History {
    let n = normalize_spec(decode_spec(bytes).0).0;
    History { text: n, saved: n, undo: seq![], redo: seq![], pending: None }
}

/// After a reload the buffer is clean and undo and redo change nothing.
pub proof fn law_reload_clears_history(bytes: Seq<u8>)
    ensures
        reloaded_history(bytes).text == reloaded_history(bytes).saved,
        undo_model(reloaded_history(bytes)) == reloaded_history(bytes),
        redo_model(reloaded_history(bytes)) == reloaded_history(bytes),
{
}

/// A commit whose transaction left the text unchanged records nothing: the
/// undo and redo histories stay as they were.
pub proof fn law_unchanged_commit_records_nothing(h: History)
    requires
        h.pending == Some(h.text),
    ensures
        commit_model(h).undo == h.undo,
        commit_model(h).redo == h.redo,
        commit_model(h).text == h.text,
{
}

/// A commit of a change clears the redo history.
pub proof fn law_commit_of_change_clears_redo(h: History)
    requires
        h.pending is Some,
        h.pending != Some(h.text),
    ensures
        commit_model(h).redo.len() == 0,
        commit_model(h).undo.len() == h.undo.len() + 1,
{
}

/// Right after a save the buffer is not modified; an edit that changes the
/// text makes it modified, and undoing that edit makes it clean again.
pub proof fn law_undo_back_to_saved_is_clean(h: History, t: Seq<char>)
    requires
        h.pending is None,
        t != h.text,
    ensures
        !modified(save_model(h)),
        ({
            let done = commit_model(edit_model(begin_model(save_model(h)), t));
            &&& modified(done)
            &&& !modified(undo_model(done))
        }),
{
}

/// Deleting exactly what was just inserted gives back the text before the
/// insert, and what is deleted is what was inserted.
pub proof fn law_delete_undoes_insert(s: Seq<char>, i: int, t: Seq<char>)
    requires
        0 <= i <= s.len(),
    ensures
        ({
            let a = splice(s, i, t);
            &&& a.subrange(i, i + t.len()) == t
            &&& a.subrange(0, i) + a.subrange(i + t.len(), a.len() as int) == s
        }),
{
    let a = splice(s, i, t);
    assert(a.subrange(i, i + t.len()) =~= t);
    assert(a.subrange(0, i) + a.subrange(i + t.len(), a.len() as int) =~= s);
}


/// Char-range edits by their plain values.
pub open spec fn edits_plain(v: Seq<(usize, usize, String)>) -> Seq<(int, int, Seq<char>)> {
    v.map_values(|e: (usize, usize, String)| (e.0 as int, e.1 as int, e.2@))
}

/// Edits that each fit in a text of `len` chars and run from the last
/// range to the first: each ends where the one before it starts, or
/// earlier.
pub open spec fn edits_in_order(es: Seq<(int, int, Seq<char>)>, len: int) -> bool {
    &&& forall|k: int| 0 <= k < es.len() ==> 0 <= (#[trigger] es[k]).0 <= es[k].1 <= len
    &&& forall|i: int, j: int| 0 <= i < j < es.len() ==> (#[trigger] es[j]).1 <= (#[trigger] es[i]).0
}

/// The chars the edits insert, all together.
pub open spec fn new_text_total(es: Seq<(int, int, Seq<char>)>) -> int
    decreases es.len(),
{
    if es.len() == 0 { 0 } else { es[0].2.len() + new_text_total(es.drop_first()) }
}

proof fn lemma_new_text_total_nonneg(es: Seq<(int, int, Seq<char>)>)
    ensures
        new_text_total(es) >= 0,
    decreases es.len(),
{
    if es.len() > 0 {
        lemma_new_text_total_nonneg(es.drop_first());
    }
}

/// `t` with the edits made one after the other, each replacing its range
/// with its new text.
pub open spec fn edits_applied(t: Seq<char>, es: Seq<(int, int, Seq<char>)>) -> Seq<char>
    decreases es.len(),
{
    if es.len() == 0 {
        t
    } else {
        let e = es[0];
        edits_applied(t.subrange(0, e.0) + e.2 + t.subrange(e.1, t.len() as int), es.drop_first())
    }
}

} // verus!
