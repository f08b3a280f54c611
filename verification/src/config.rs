//! The configuration entries that the editor's logic reads: key remaps,
//! autocommands, and the sanitizing of loaded indent/leader settings.
use vstd::prelude::*;

verus! {

/// One `[[keymap]]` entry: remap `lhs` to `rhs` in the given `mode`(s).
#[derive(Debug, Clone)]
pub struct KeymapCfg {
    /// Any combination of `n` (normal), `i` (insert), `v` (visual).
    pub mode: String,
    pub lhs: String,
    pub rhs: String,
}

impl Default for KeymapCfg {
    fn default() -> (r: Self)
        ensures
            r.mode@ == "n"@,
            r.lhs@.len() == 0,
            r.rhs@.len() == 0,
    {
        KeymapCfg { mode: String::from_str("n"), lhs: String::new(), rhs: String::new() }
    }
}

/// One `[[autocmd]]` entry: run the Ex `command` when `event` fires on a
/// buffer whose name matches the glob `pattern`.
#[derive(Debug, Clone)]
pub struct Autocmd {
    pub event: String,
    pub pattern: String,
    pub command: String,
}

impl Default for Autocmd {
    fn default() -> (r: Self)
        ensures
            r.event@.len() == 0,
            r.pattern@ == "*"@,
            r.command@.len() == 0,
    {
        Autocmd { event: String::new(), pattern: String::from_str("*"), command: String::new() }
    }
}

/// `v` clamped to `[lo, hi]`.
pub open spec fn clamp_spec(v: int, lo: int, hi: int) -> int {
    if v < lo {
        lo
    } else if v > hi {
        hi
    } else {
        v
    }
}

/// The settings a loaded config is sanitized to: `tabstop` and `shiftwidth`
/// clamped to `1..=32`, a `leader` that is not exactly one character
/// replaced by `,`.
pub fn sanitize_settings(tabstop: usize, shiftwidth: usize, leader: String) -> (r: (usize, usize, String))
    ensures
        r.0 == clamp_spec(tabstop as int, 1, 32),
        r.1 == clamp_spec(shiftwidth as int, 1, 32),
        r.2@ == if leader@.len() == 1 { leader@ } else { ","@ },
{
    let ts = if tabstop < 1 { 1 } else if tabstop > 32 { 32 } else { tabstop };
    let sw = if shiftwidth < 1 { 1 } else if shiftwidth > 32 { 32 } else { shiftwidth };
    let n = crate::text::chars_of(leader.as_str()).len();
    let l = if n == 1 { leader } else { String::from_str(",") };
    (ts, sw, l)
}

} // verus!
