//! Copying over a remote session: the text goes to the terminal's
//! clipboard as an OSC 52 escape sequence, base64-encoded, wrapped for
//! tmux's passthrough when inside tmux, and skipped when too long for a
//! terminal to take. Writing the sequence and the local clipboard tools
//! belong to the caller.
use vstd::prelude::*;
use base64::Engine;
use crate::text::{chars_of, extend_chars, string_from};

verus! {

/// What `base64`'s `STANDARD` engine encodes the UTF-8 bytes of `text` to.
pub uninterp spec fn base64_text(text: Seq<char>) -> Seq<char>;

/// `base64::engine::general_purpose::STANDARD.encode` on the text's UTF-8
/// bytes, by the name `base64_text`. The bound on the text keeps the
/// encoded length from overflowing, where the crate panics.
#[verifier::external_body]
fn base64_encode(text: &str) -> (r: String)
    requires
        text@.len() <= usize::MAX / 8,
    ensures
        r@ == base64_text(text@),
{
    base64::engine::general_purpose::STANDARD.encode(text.as_bytes())
}

/// The longest encoded payload that is sent.
pub open spec fn osc52_limit() -> int {
    100_000
}

/// `s` with each ESC doubled, as tmux's passthrough wants it.
pub open spec fn double_esc(s: Seq<char>) -> Seq<char>
    decreases s.len(),
{
    if s.len() == 0 {
        seq![]
    } else {
        double_esc(s.drop_last()) + if s.last() == '\x1b' { seq!['\x1b', '\x1b'] } else { seq![s.last()] }
    }
}

/// The OSC 52 sequence that sets the clipboard to the base64 payload
/// `encoded`, wrapped in tmux's passthrough (`ESC P tmux; ... ESC \`,
/// each ESC inside doubled) when `in_tmux`; `None` for a payload past the
/// limit, which terminals would drop without a word.
pub open spec fn osc52_spec(encoded: Seq<char>, in_tmux: bool) -> Option<Seq<char>> {
    if encoded.len() > osc52_limit() {
        None
    } else {
        let osc = "\x1b]52;c;"@ + encoded + "\x07"@;
        Some(if in_tmux { "\x1bPtmux;"@ + double_esc(osc) + "\x1b\\"@ } else { osc })
    }
}

/// Frames the base64 payload `encoded` as the clipboard sequence (see
/// [`osc52_spec`]).
pub fn osc52_frame(encoded: &str, in_tmux: bool) -> (r: Option<String>)
    ensures
        match r {
            Some(s) => osc52_spec(encoded@, in_tmux) == Some(s@),
            None => osc52_spec(encoded@, in_tmux) is None,
        },
{
    let e = chars_of(encoded);
    if e.len() > 100_000 {
        return None;
    }
    let mut osc = chars_of("\x1b]52;c;");
    extend_chars(&mut osc, &e);
    extend_chars(&mut osc, &chars_of("\x07"));
    if !in_tmux {
        return Some(string_from(&osc));
    }
    let mut out = chars_of("\x1bPtmux;");
    let ghost head = out@;
    let mut i: usize = 0;
    while i < osc.len()
        invariant
            i <= osc@.len(),
            out@ == head + double_esc(osc@.subrange(0, i as int)),
        decreases osc@.len() - i,
    {
        let c = osc[i];
        proof {
            let p = osc@.subrange(0, i + 1);
            assert(p.drop_last() =~= osc@.subrange(0, i as int));
        }
        if c == '\x1b' {
            out.push('\x1b');
            out.push('\x1b');
        } else {
            out.push(c);
        }
        proof {
            let p = osc@.subrange(0, i + 1);
            assert(out@ =~= head + double_esc(p));
        }
        i += 1;
    }
    assert(osc@.subrange(0, osc@.len() as int) =~= osc@);
    extend_chars(&mut out, &chars_of("\x1b\\"));
    Some(string_from(&out))
}

/// The clipboard sequence that copies `text` (see [`osc52_spec`]): its
/// UTF-8 bytes in base64, framed by [`osc52_frame`].
pub fn osc52(text: &str, in_tmux: bool) -> (r: Option<String>)
    requires
        text@.len() <= usize::MAX / 8,
    ensures
        match r {
            Some(s) => osc52_spec(base64_text(text@), in_tmux) == Some(s@),
            None => osc52_spec(base64_text(text@), in_tmux) is None,
        },
{
    let encoded = base64_encode(text);
    osc52_frame(encoded.as_str(), in_tmux)
}

} // verus!
