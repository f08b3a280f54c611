//! User key remapping, parsed from `[[keymap]]` config entries. Supports
//! single-key remaps in Normal/Insert/Visual and leader-sequence remaps
//! (`<leader>x`). The right-hand side is either a key sequence to replay
//! (`noremap` semantics) or an Ex command when it begins with `:`.
use vstd::prelude::*;
use crate::config::KeymapCfg;
use crate::key::Key;
use crate::text::{
    ascii_lower, ascii_lower_seq, chars_of, copy_range, find_char, matches_at, next_char,
    starts_at, string_of, strip_suffix,
};

verus! {

/// A mapping's right-hand side.
#[derive(Clone, Debug, PartialEq, Eq)]
pub enum Rhs {
    Keys(Vec<Key>),
    Ex(String),
}

/// The modes a mapping applies in.
#[derive(Clone, Copy, PartialEq, Eq, Debug, Structural)]
pub struct Modes {
    pub normal: bool,
    pub insert: bool,
    pub visual: bool,
}

/// One parsed mapping.
#[derive(Clone, Debug)]
pub struct Keymap {
    pub modes: Modes,
    pub lhs: Vec<Key>,
    /// For a leader mapping, the key sequence after the leader; empty otherwise.
    pub leader_seq: Option<String>,
    pub rhs: Rhs,
}

/// The modes named by a mode string: `n`, `i`, `v` anywhere in it.
pub open spec fn modes_spec(s: Seq<char>) -> Modes {
    Modes { normal: s.contains('n'), insert: s.contains('i'), visual: s.contains('v') }
}

fn has_char(s: &Vec<char>, c: char) -> (r: bool)
    ensures
        r == s@.contains(c),
{
    let i = find_char(s, c, 0, s.len());
    if i < s.len() {
        true
    } else {
        assert(!s@.contains(c)) by {
            if s@.contains(c) {
                let k = choose|k: int| 0 <= k < s@.len() && s@[k] == c;
                assert(s@[k] != c);
            }
        }
        false
    }
}

/// The modes named by a mode string.
pub fn parse_modes(s: &str) -> (r: Modes)
    ensures
        r == modes_spec(s@),
{
    let v = chars_of(s);
    Modes { normal: has_char(&v, 'n'), insert: has_char(&v, 'i'), visual: has_char(&v, 'v') }
}

/// The key a lower-cased `<...>` token (without the brackets) names.
pub open spec fn token_key(lower: Seq<char>, leader: char) -> Option<Key> {
    if lower == "leader"@ {
        Some(Key::Char(leader))
    } else if lower == "cr"@ || lower == "enter"@ || lower == "return"@ {
        Some(Key::Enter)
    } else if lower == "esc"@ || lower == "escape"@ {
        Some(Key::Esc)
    } else if lower == "tab"@ {
        Some(Key::Tab)
    } else if lower == "s-tab"@ || lower == "bs-tab"@ {
        Some(Key::BackTab)
    } else if lower == "bs"@ || lower == "backspace"@ {
        Some(Key::Backspace)
    } else if lower == "del"@ || lower == "delete"@ {
        Some(Key::Delete)
    } else if lower == "space"@ {
        Some(Key::Char(' '))
    } else if lower == "bar"@ {
        Some(Key::Char('|'))
    } else if lower == "lt"@ {
        Some(Key::Char('<'))
    } else if lower == "up"@ {
        Some(Key::Up)
    } else if lower == "down"@ {
        Some(Key::Down)
    } else if lower == "left"@ {
        Some(Key::Left)
    } else if lower == "right"@ {
        Some(Key::Right)
    } else if lower == "home"@ {
        Some(Key::Home)
    } else if lower == "end"@ {
        Some(Key::End)
    } else if "c-"@.is_prefix_of(lower) && lower.len() > 2 {
        Some(Key::Ctrl(lower[2]))
    } else {
        None
    }
}

fn is_word(s: &Vec<char>, w: &str) -> (r: bool)
    ensures
        r == (s@ == w@),
{
    let t = chars_of(w);
    crate::text::chars_eq(s, &t)
}

/// The key a lower-cased token names.
fn token_key_exec(lower: &Vec<char>, leader: char) -> (r: Option<Key>)
    ensures
        r == token_key(lower@, leader),
{
    if is_word(lower, "leader") {
        Some(Key::Char(leader))
    } else if is_word(lower, "cr") || is_word(lower, "enter") || is_word(lower, "return") {
        Some(Key::Enter)
    } else if is_word(lower, "esc") || is_word(lower, "escape") {
        Some(Key::Esc)
    } else if is_word(lower, "tab") {
        Some(Key::Tab)
    } else if is_word(lower, "s-tab") || is_word(lower, "bs-tab") {
        Some(Key::BackTab)
    } else if is_word(lower, "bs") || is_word(lower, "backspace") {
        Some(Key::Backspace)
    } else if is_word(lower, "del") || is_word(lower, "delete") {
        Some(Key::Delete)
    } else if is_word(lower, "space") {
        Some(Key::Char(' '))
    } else if is_word(lower, "bar") {
        Some(Key::Char('|'))
    } else if is_word(lower, "lt") {
        Some(Key::Char('<'))
    } else if is_word(lower, "up") {
        Some(Key::Up)
    } else if is_word(lower, "down") {
        Some(Key::Down)
    } else if is_word(lower, "left") {
        Some(Key::Left)
    } else if is_word(lower, "right") {
        Some(Key::Right)
    } else if is_word(lower, "home") {
        Some(Key::Home)
    } else if is_word(lower, "end") {
        Some(Key::End)
    } else {
        let p = chars_of("c-");
        proof {
            reveal_strlit("c-");
        }
        if starts_at(lower, 0, &p) && lower.len() > 2 {
            assert("c-"@.is_prefix_of(lower@)) by {
                assert(lower@.subrange(0, 2) == "c-"@);
            }
            Some(Key::Ctrl(lower[2]))
        } else {
            proof {
                if "c-"@.is_prefix_of(lower@) && lower@.len() > 2 {
                    assert(lower@.subrange(0, 2) =~= "c-"@);
                }
            }
            None
        }
    }
}

/// Parses a single `<...>` token (already stripped of the angle brackets).
pub fn parse_token(tok: &str, leader: char) -> (r: Option<Vec<Key>>)
    ensures
        match token_key(ascii_lower_seq(tok@), leader) {
            Some(k) => r matches Some(v) && v@ == seq![k],
            None => r is None,
        },
{
    let t = chars_of(tok);
    let lower = crate::text::to_ascii_lower(&t);
    match token_key_exec(&lower, leader) {
        Some(k) => {
            let mut v: Vec<Key> = Vec::new();
            v.push(k);
            Some(v)
        },
        None => None,
    }
}

/// The key of a literal character.
pub open spec fn char_key(c: char) -> Key {
    Key::Char(c)
}

/// The keys that `s[i..]` denotes: `<...>` tokens expanded, any other
/// character (and a `<` that does not start a known token) taken literally.
pub open spec fn keys_from(s: Seq<char>, i: int, leader: char) -> Seq<Key>
    decreases s.len() - i,
{
    if i < 0 || i >= s.len() {
        seq![]
    } else if s[i] == '<' {
        let close = next_char(s, '>', i + 1, s.len() as int);
        if close < s.len() && close > i && token_key(ascii_lower_seq(s.subrange(i + 1, close)), leader) is Some {
            seq![token_key(ascii_lower_seq(s.subrange(i + 1, close)), leader)->0] + keys_from(s, close + 1, leader)
        } else {
            seq![char_key('<')] + keys_from(s, i + 1, leader)
        }
    } else {
        seq![char_key(s[i])] + keys_from(s, i + 1, leader)
    }
}

proof fn lemma_keys_literal(s: Seq<char>, i: int, leader: char)
    requires
        0 <= i < s.len(),
        s[i] != '<',
    ensures
        keys_from(s, i, leader) == seq![char_key(s[i])] + keys_from(s, i + 1, leader),
{
}

/// The keys a key-notation string denotes.
pub open spec fn keys_spec(s: Seq<char>, leader: char) -> Seq<Key> {
    keys_from(s, 0, leader)
}

/// Parses a key-notation string ("Y", "jj", "<leader>x", "<C-s>",
/// ":w<CR>") into keys. `<...>` tokens are expanded; other characters are
/// literal.
pub fn parse_keys(notation: &str, leader: char) -> (out: Vec<Key>)
    ensures
        out@ == keys_spec(notation@, leader),
{
    let s = chars_of(notation);
    let mut out: Vec<Key> = Vec::new();
    let mut i: usize = 0;
    while i < s.len()
        invariant
            i <= s@.len(),
            s@ == notation@,
            keys_spec(s@, leader) == out@ + keys_from(s@, i as int, leader),
        decreases s@.len() - i,
    {
        if s[i] == '<' {
            let close = find_char(&s, '>', i + 1, s.len());
            if close < s.len() {
                let tok = copy_range(&s, i + 1, close);
                let lower = crate::text::to_ascii_lower(&tok);
                if let Some(k) = token_key_exec(&lower, leader) {
                    proof {
                        assert(keys_from(s@, i as int, leader) == seq![k] + keys_from(s@, close + 1, leader));
                        crate::text::lemma_push_concat(out@, k, keys_from(s@, close + 1, leader));
                    }
                    out.push(k);
                    i = close + 1;
                    continue;
                }
            }
            proof {
                assert(keys_from(s@, i as int, leader) == seq![char_key('<')] + keys_from(s@, i + 1, leader));
                crate::text::lemma_push_concat(out@, char_key('<'), keys_from(s@, i + 1, leader));
            }
            out.push(Key::Char('<'));
            i += 1;
        } else {
            proof {
                lemma_keys_literal(s@, i as int, leader);
                crate::text::lemma_push_concat(out@, char_key(s@[i as int]), keys_from(s@, i + 1, leader));
            }
            out.push(Key::Char(s[i]));
            i += 1;
        }
    }
    assert(out@ + keys_from(s@, i as int, leader) =~= out@);
    out
}

/// The body of an Ex right-hand side (after its `:`), with one trailing
/// `<CR>`, `<cr>` or `<Enter>` dropped.
pub open spec fn ex_body(stripped: Seq<char>) -> Seq<char> {
    if strip_suffix(stripped, "<CR>"@) is Some {
        strip_suffix(stripped, "<CR>"@)->0
    } else if strip_suffix(stripped, "<cr>"@) is Some {
        strip_suffix(stripped, "<cr>"@)->0
    } else if strip_suffix(stripped, "<Enter>"@) is Some {
        strip_suffix(stripped, "<Enter>"@)->0
    } else {
        stripped
    }
}

/// Whether a parsed right-hand side is the one `rhs` denotes.
pub open spec fn rhs_is(r: Rhs, rhs: Seq<char>, leader: char) -> bool {
    if rhs.len() > 0 && rhs[0] == ':' {
        r matches Rhs::Ex(b) && b@ == ex_body(rhs.drop_first())
    } else {
        r matches Rhs::Keys(k) && k@ == keys_spec(rhs, leader)
    }
}

fn suffix_len(s: &Vec<char>, lo: usize, w: &str) -> (r: bool)
    requires
        lo <= s@.len(),
    ensures
        r == (strip_suffix(s@.subrange(lo as int, s@.len() as int), w@) is Some),
{
    let p = chars_of(w);
    let ghost t = s@.subrange(lo as int, s@.len() as int);
    if p.len() > s.len() - lo {
        return false;
    }
    let r = starts_at(s, s.len() - p.len(), &p);
    assert(t.subrange(t.len() - p@.len(), t.len() as int) =~= s@.subrange(s@.len() - p@.len(), s@.len() as int));
    r
}

/// Parses a mapping's right-hand side.
pub fn parse_rhs(rhs: &str, leader: char) -> (r: Rhs)
    ensures
        rhs_is(r, rhs@, leader),
{
    let s = chars_of(rhs);
    if s.len() > 0 && s[0] == ':' {
        let n = s.len();
        let ghost st = s@.drop_first();
        assert(st =~= s@.subrange(1, n as int));
        proof {
            reveal_strlit("<CR>");
            reveal_strlit("<cr>");
            reveal_strlit("<Enter>");
        }
        let end = if suffix_len(&s, 1, "<CR>") {
            n - 4
        } else if suffix_len(&s, 1, "<cr>") {
            n - 4
        } else if suffix_len(&s, 1, "<Enter>") {
            n - 7
        } else {
            n
        };
        let body = string_of(&s, 1, end);
        assert(body@ =~= ex_body(st));
        Rhs::Ex(body)
    } else {
        Rhs::Keys(parse_keys(rhs, leader))
    }
}

/// How many chars of the lhs string represent the leader prefix: 8 for a
/// `<leader>` token (any case), else 1.
pub open spec fn leader_marker_len_spec(lhs: Seq<char>) -> int {
    if "<leader>"@.is_prefix_of(ascii_lower_seq(lhs)) {
        8
    } else {
        1
    }
}

/// How many chars of the lhs string represent the leader prefix (either
/// the literal leader char, or the `<leader>` token).
pub fn leader_marker_len(lhs: &str) -> (r: usize)
    ensures
        r == leader_marker_len_spec(lhs@),
{
    let s = chars_of(lhs);
    let low = crate::text::to_ascii_lower(&s);
    let p = chars_of("<leader>");
    proof {
        reveal_strlit("<leader>");
    }
    if starts_at(&low, 0, &p) {
        assert("<leader>"@.is_prefix_of(low@)) by {
            assert(low@.subrange(0, 8) == "<leader>"@);
        }
        8
    } else {
        proof {
            if "<leader>"@.is_prefix_of(low@) {
                assert(low@.subrange(0, 8) =~= "<leader>"@);
            }
        }
        1
    }
}

/// Whether a config entry yields a mapping: both sides non-empty and the
/// left side denotes at least one key.
pub open spec fn cfg_kept(c: KeymapCfg, leader: char) -> bool {
    c.lhs@.len() > 0 && c.rhs@.len() > 0 && keys_spec(c.lhs@, leader).len() > 0
}

/// Whether `k` is the mapping parsed from `c`.
pub open spec fn keymap_of(c: KeymapCfg, leader: char, k: Keymap) -> bool {
    let lhs = keys_spec(c.lhs@, leader);
    &&& k.modes == modes_spec(c.mode@)
    &&& k.lhs@ == lhs
    &&& if lhs[0] == Key::Char(leader) && lhs.len() > 1 {
        k.leader_seq matches Some(q) && q@ == c.lhs@.subrange(
            if leader_marker_len_spec(c.lhs@) <= c.lhs@.len() { leader_marker_len_spec(c.lhs@) } else { c.lhs@.len() as int },
            c.lhs@.len() as int,
        )
    } else {
        k.leader_seq is None
    }
    &&& rhs_is(k.rhs, c.rhs@, leader)
}

/// Builds the parsed keymaps from config, in order. Entries with an empty
/// side, or a left side denoting no keys, are skipped.
pub fn build(cfgs: &[KeymapCfg], leader: char) -> (out: Vec<Keymap>)
    ensures
        out@.len() == cfgs@.filter(|c: KeymapCfg| cfg_kept(c, leader)).len(),
        forall|k: int|
            0 <= k < out@.len() ==> keymap_of(
                cfgs@.filter(|c: KeymapCfg| cfg_kept(c, leader))[k],
                leader,
                #[trigger] out@[k],
            ),
{
    let ghost f = |c: KeymapCfg| cfg_kept(c, leader);
    let mut out: Vec<Keymap> = Vec::new();
    let mut i: usize = 0;
    while i < cfgs.len()
        invariant
            i <= cfgs@.len(),
            f == (|c: KeymapCfg| cfg_kept(c, leader)),
            out@.len() == cfgs@.subrange(0, i as int).filter(f).len(),
            forall|k: int|
                0 <= k < out@.len() ==> keymap_of(
                    cfgs@.subrange(0, i as int).filter(f)[k],
                    leader,
                    #[trigger] out@[k],
                ),
        decreases cfgs@.len() - i,
    {
        let c = &cfgs[i];
        proof {
            assert(cfgs@.subrange(0, i + 1) =~= cfgs@.subrange(0, i as int).push(cfgs@[i as int]));
            cfgs@.subrange(0, i as int).lemma_filter_push(cfgs@[i as int], f);
        }
        let lhs_chars = chars_of(c.lhs.as_str());
        let rhs_chars = chars_of(c.rhs.as_str());
        if lhs_chars.len() == 0 || rhs_chars.len() == 0 {
            i += 1;
            continue;
        }
        let lhs = parse_keys(c.lhs.as_str(), leader);
        if lhs.len() == 0 {
            i += 1;
            continue;
        }
        let leader_seq = if lhs[0] == Key::Char(leader) && lhs.len() > 1 {
            let m = leader_marker_len(c.lhs.as_str());
            let from = if m <= lhs_chars.len() { m } else { lhs_chars.len() };
            Some(string_of(&lhs_chars, from, lhs_chars.len()))
        } else {
            None
        };
        let km = Keymap {
            modes: parse_modes(c.mode.as_str()),
            lhs,
            leader_seq,
            rhs: parse_rhs(c.rhs.as_str(), leader),
        };
        assert(keymap_of(cfgs@[i as int], leader, km));
        out.push(km);
        i += 1;
    }
    assert(cfgs@.subrange(0, cfgs@.len() as int) =~= cfgs@);
    out
}

} // verus!
verus! {
proof fn probe1(s: Seq<char>, i: int, leader: char)
    requires 0 <= i < s.len(), s[i] != '<',
{
    let k = keys_from(s, i, leader);
    assert(k.len() >= 1);
}
proof fn probe2(s: Seq<char>, i: int, leader: char)
    requires 0 <= i < s.len(), s[i] != '<',
{
    reveal_with_fuel(keys_from, 2);
    assert(keys_from(s, i, leader) =~= seq![Key::Char(s[i])] + keys_from(s, i + 1, leader));
}
}
