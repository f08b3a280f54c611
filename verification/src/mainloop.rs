//! The decisions of the editor's main loop and of its background jobs:
//! how long to wait for the next key after a frame (the `jk` escape
//! timeout, the which-key and completion reveal delays, the idle poll), and
//! when a live grep runs, which of its results are shown and what error
//! goes with them. The loop itself, the clock and the threads are the
//! program's; these functions take the times and results as values.
use vstd::prelude::*;
use crate::text::{byte_boundary, byte_to_char, chars_of, trim};

verus! {

/// What the loop needs to know after drawing a frame; times in
/// milliseconds on one clock.
pub struct LoopView {
    pub should_quit: bool,
    /// When a `j` that may start the `jk` escape was typed.
    pub pending_jk_since: Option<u64>,
    pub timeoutlen_ms: u64,
    /// When the leader key was pressed, while its which-key popup waits.
    pub leader_since: Option<u64>,
    pub whichkey_delay_ms: u64,
    /// When the completion popup was opened, while its reveal waits.
    pub completion_since: Option<u64>,
    pub completion_delay_ms: u64,
}

/// What the loop does next.
#[derive(Debug, Clone, Copy, PartialEq, Eq, Structural)]
pub enum Wait {
    /// Save the session and stop.
    Quit,
    /// The `jk` timeout has passed: type the pending `j` as a letter.
    FlushJk,
    /// Wait up to this long for a key; if none comes, type the pending
    /// `j` as a letter.
    KeyOrFlushJk(u64),
    /// Wait up to this long for a key, then draw again either way.
    KeyOrRedraw(u64),
    /// Block for keys, waking every this often to poll background work.
    Idle(u64),
}

/// How often an idle loop wakes to poll jobs and language servers.
pub open spec fn idle_poll_ms() -> u64 {
    10
}

/// The time since `since`, none when the clock reads earlier.
pub open spec fn elapsed(since: u64, now: u64) -> int {
    if now >= since { now - since } else { 0 }
}

/// `n`, at least 1.
pub open spec fn at_least_one(n: u64) -> int {
    if n > 0 { n as int } else { 1 }
}

/// What the loop does after a frame at time `now`: quit when asked; with a
/// pending `j`, wait out the `jk` timeout (at least 1 ms); with the
/// which-key popup or the completion popup still hidden, wait out its delay
/// (which-key's at least 1 ms) and draw again; else idle.
pub open spec fn next_wait_spec(v: LoopView, now: u64) -> Wait {
    if v.should_quit {
        Wait::Quit
    } else if v.pending_jk_since is Some {
        let full = at_least_one(v.timeoutlen_ms);
        let e = elapsed(v.pending_jk_since->0, now);
        if e >= full { Wait::FlushJk } else { Wait::KeyOrFlushJk((full - e) as u64) }
    } else if v.leader_since is Some && elapsed(v.leader_since->0, now) < at_least_one(v.whichkey_delay_ms) {
        Wait::KeyOrRedraw((at_least_one(v.whichkey_delay_ms) - elapsed(v.leader_since->0, now)) as u64)
    } else if v.completion_since is Some && elapsed(v.completion_since->0, now) < v.completion_delay_ms {
        Wait::KeyOrRedraw((v.completion_delay_ms - elapsed(v.completion_since->0, now)) as u64)
    } else {
        Wait::Idle(idle_poll_ms())
    }
}

fn since_ms(since: u64, now: u64) -> (r: u64)
    ensures
        r == elapsed(since, now),
{
    if now >= since { now - since } else { 0 }
}

/// What the main loop does after drawing a frame at time `now` (see
/// `next_wait_spec`).
pub fn next_wait(v: &LoopView, now: u64) -> (r: Wait)
    ensures
        r == next_wait_spec(*v, now),
{
    if v.should_quit {
        return Wait::Quit;
    }
    if let Some(s) = v.pending_jk_since {
        let full: u64 = if v.timeoutlen_ms > 0 { v.timeoutlen_ms } else { 1 };
        let e = since_ms(s, now);
        return if e >= full { Wait::FlushJk } else { Wait::KeyOrFlushJk(full - e) };
    }
    if let Some(s) = v.leader_since {
        let delay: u64 = if v.whichkey_delay_ms > 0 { v.whichkey_delay_ms } else { 1 };
        let e = since_ms(s, now);
        if e < delay {
            return Wait::KeyOrRedraw(delay - e);
        }
    }
    if let Some(s) = v.completion_since {
        let e = since_ms(s, now);
        if e < v.completion_delay_ms {
            return Wait::KeyOrRedraw(v.completion_delay_ms - e);
        }
    }
    Wait::Idle(10)
}

// ---------------------------------------------------------------- live grep

/// How long a live-grep query waits for more typing before it runs.
pub open spec fn grep_debounce_ms() -> u64 {
    120
}

/// Whether a live-grep query scheduled at `since` is due at `now`: the
/// debounce has passed.
pub fn grep_due(since: u64, now: u64) -> (r: bool)
    ensures
        r == (elapsed(since, now) >= grep_debounce_ms()),
{
    since_ms(since, now) >= 120
}

/// Whether a finished grep's results are shown: they come from the latest
/// query (`generation`) and the results list is still the live one.
pub fn grep_accepted(result_id: u64, generation: u64, live: bool) -> (r: bool)
    ensures
        r == (result_id == generation && live),
{
    result_id == generation && live
}

/// The most matches a live grep collects.
pub open spec fn grep_cap() -> usize {
    5000
}

/// The error line shown with a grep's results: the cap notice when it was
/// reached, ripgrep's trimmed error output when it failed (exit code above
/// 1; 1 only means no match), else none.
pub open spec fn grep_error_spec(count: usize, exit_code: Option<i32>, stderr: Seq<char>) -> Option<Seq<char>> {
    if count >= grep_cap() {
        Some("Showing first 5,000 matches; narrow the query"@)
    } else if exit_code matches Some(c) && c > 1 {
        Some(trim(stderr))
    } else {
        None
    }
}

/// The error line shown with a grep's results (see `grep_error_spec`).
pub fn grep_error(count: usize, exit_code: Option<i32>, stderr: &str) -> (r: Option<String>)
    ensures
        match grep_error_spec(count, exit_code, stderr@) {
            Some(m) => r matches Some(x) && x@ == m,
            None => r is None,
        },
{
    if count >= 5000 {
        return Some(String::from_str("Showing first 5,000 matches; narrow the query"));
    }
    match exit_code {
        Some(c) => {
            if c > 1 {
                Some(crate::text::trim_str(stderr))
            } else {
                None
            }
        },
        None => None,
    }
}

/// The char column of a match that starts `byte` bytes into a line: the
/// chars before that byte, none (column 0) when it is not a char boundary.
pub open spec fn match_column_spec(text: Seq<char>, byte: int) -> int {
    match byte_boundary(text, byte) {
        Some(k) => k,
        None => 0,
    }
}

/// The char column of a match that starts `byte` bytes into `text` (see
/// `match_column_spec`).
pub fn match_column(text: &str, byte: usize) -> (r: usize)
    ensures
        r == match_column_spec(text@, byte as int),
{
    let v = chars_of(text);
    match byte_to_char(&v, byte) {
        Some(k) => k,
        None => 0,
    }
}

} // verus!
