//! The matches of a project search: each line ripgrep prints with
//! `--json` is read into the hits it reports. Running ripgrep, and making
//! each path absolute, belong to the caller.
use vstd::prelude::*;
use crate::completion::{json_get, json_member, json_str, json_text};
use crate::language::{json_array, json_elements};
use crate::lsp_results::{json_u64, json_unsigned};
use crate::text::{byte_boundary, byte_to_char, chars_of, skip_ws_back_exec, string_from, trim_end};

verus! {

/// The text of member `key` of `v`, when it has one that is a string.
pub open spec fn member_text(v: serde_json::Value, key: Seq<char>) -> Option<Seq<char>> {
    match json_member(v, key) {
        Some(x) => json_text(x),
        None => None,
    }
}

/// Member `k2` of member `k1` of `v`.
pub open spec fn member2(v: serde_json::Value, k1: Seq<char>, k2: Seq<char>) -> Option<serde_json::Value> {
    match json_member(v, k1) {
        Some(x) => json_member(x, k2),
        None => None,
    }
}

/// The non-negative integer of member `key` of `v`, else `default`.
pub open spec fn member_count(v: serde_json::Value, key: Seq<char>, default: u64) -> u64 {
    match json_member(v, key) {
        Some(x) => match json_unsigned(x) {
            Some(n) => n,
            None => default,
        },
        None => default,
    }
}

/// The column of a submatch `m` in the matched line `text`: the chars
/// before its `start` byte (none when that is not a char boundary of the
/// line).
pub open spec fn hit_col(text: Seq<char>, m: serde_json::Value) -> int {
    match byte_boundary(text, member_count(m, "start"@, 0) as usize as int) {
        Some(k) => k,
        None => 0,
    }
}

/// What a `match` message of `rg --json` reports: the path, the 0-based
/// line (line numbers start at 1), the line's text with its end trimmed,
/// and its submatches; `None` for any other message, and for one without a
/// path.
pub open spec fn rg_match(v: serde_json::Value) -> Option<(Seq<char>, int, Seq<char>, Seq<serde_json::Value>)> {
    if member_text(v, "type"@) != Some("match"@) {
        None
    } else {
        match json_member(v, "data"@) {
            None => None,
            Some(d) => match member2(d, "path"@, "text"@) {
                None => None,
                Some(pv) => match json_text(pv) {
                    None => None,
                    Some(path) => {
                        let text = trim_end(match member2(d, "lines"@, "text"@) {
                            Some(t) => match json_text(t) {
                                Some(s) => s,
                                None => Seq::<char>::empty(),
                            },
                            None => Seq::<char>::empty(),
                        });
                        let n = member_count(d, "line_number"@, 1) as usize as int;
                        let subs = match json_member(d, "submatches"@) {
                            Some(a) => match json_elements(a) {
                                Some(ms) => ms,
                                None => Seq::empty(),
                            },
                            None => Seq::empty(),
                        };
                        Some((path, if n > 0 { n - 1 } else { 0 }, text, subs))
                    },
                },
            },
        }
    }
}

/// The hits of one line of `rg --json` output, at most `room` of them: one
/// for each submatch of a `match` message, in order, each with the path,
/// line and text of the match and the submatch's column (see `rg_match`,
/// `hit_col`).
pub open spec fn rg_hits_spec(v: serde_json::Value, room: int) -> Seq<(Seq<char>, int, int, Seq<char>)> {
    match rg_match(v) {
        None => Seq::empty(),
        Some((path, line, text, subs)) => {
            let n = if subs.len() < room { subs.len() as int } else { room };
            Seq::new(n as nat, |i: int| (path, line, hit_col(text, subs[i]), text))
        },
    }
}

/// A hit `(path, line, column, text)` by its plain values.
pub open spec fn hit_view(h: (String, usize, usize, String)) -> (Seq<char>, int, int, Seq<char>) {
    (h.0@, h.1 as int, h.2 as int, h.3@)
}

fn text_member(v: &serde_json::Value, key: &str) -> (r: Option<String>)
    ensures
        match r {
            Some(t) => member_text(*v, key@) == Some(t@),
            None => member_text(*v, key@) is None,
        },
{
    match json_get(v, key) {
        Some(x) => json_str(x),
        None => None,
    }
}

fn count_member(v: &serde_json::Value, key: &str, default: u64) -> (r: u64)
    ensures
        r == member_count(*v, key@, default),
{
    match json_get(v, key) {
        Some(x) => match json_u64(x) {
            Some(n) => n,
            None => default,
        },
        None => default,
    }
}

/// Reads one line of `rg --json` output, already parsed as JSON, into its
/// hits `(path, line, column, text)`, at most `room` of them (see
/// [`rg_hits_spec`]).
pub fn rg_hits(v: &serde_json::Value, room: usize) -> (r: Vec<(String, usize, usize, String)>)
    ensures
        r@.map_values(|h: (String, usize, usize, String)| hit_view(h)) == rg_hits_spec(*v, room as int),
{
    let mut out: Vec<(String, usize, usize, String)> = Vec::new();
    let kind = text_member(v, "type");
    let is_match = match &kind {
        Some(k) => crate::text::chars_eq(&chars_of(k.as_str()), &chars_of("match")),
        None => false,
    };
    if !is_match {
        assert(out@.map_values(|h: (String, usize, usize, String)| hit_view(h)) =~= Seq::empty());
        return out;
    }
    let d = match json_get(v, "data") {
        Some(d) => d,
        None => {
            assert(out@.map_values(|h: (String, usize, usize, String)| hit_view(h)) =~= Seq::empty());
            return out;
        },
    };
    let path = match json_get(d, "path") {
        Some(p) => text_member(p, "text"),
        None => None,
    };
    let path = match path {
        Some(p) => p,
        None => {
            assert(out@.map_values(|h: (String, usize, usize, String)| hit_view(h)) =~= Seq::empty());
            return out;
        },
    };
    let raw = match json_get(d, "lines") {
        Some(l) => match text_member(l, "text") {
            Some(t) => t,
            None => String::new(),
        },
        None => String::new(),
    };
    let rc = chars_of(raw.as_str());
    let end = skip_ws_back_exec(&rc, 0, rc.len());
    let tc = crate::text::copy_range(&rc, 0, end);
    proof {
        assert(rc@.subrange(0, rc@.len() as int) =~= rc@);
    }
    let text = string_from(&tc);
    let n = count_member(d, "line_number", 1) as usize;
    let line: usize = if n > 0 { n - 1 } else { 0 };
    let empty: Vec<serde_json::Value> = Vec::new();
    let subs: &Vec<serde_json::Value> = match json_get(d, "submatches") {
        Some(a) => match json_array(a) {
            Some(ms) => ms,
            None => &empty,
        },
        None => &empty,
    };
    let ghost m = rg_match(*v);
    assert(m == Some((path@, line as int, tc@, subs@)));
    let ghost want = rg_hits_spec(*v, room as int);
    assert(want.len() == if subs@.len() < room { subs@.len() as int } else { room as int });
    assert(forall|j: int| 0 <= j < want.len() ==> #[trigger] want[j] == (path@, line as int, hit_col(tc@, subs@[j]), tc@));
    let tlen = tc.len();
    let mut i: usize = 0;
    while i < subs.len() && i < room
        invariant
            tc@.len() == tlen,
            i <= subs@.len(),
            i <= room,
            m == Some((path@, line as int, tc@, subs@)),
            want == rg_hits_spec(*v, room as int),
            want.len() == if subs@.len() < room { subs@.len() as int } else { room as int },
            forall|j: int| 0 <= j < want.len() ==> #[trigger] want[j] == (path@, line as int, hit_col(tc@, subs@[j]), tc@),
            out@.len() == i,
            forall|k: int| 0 <= k < i ==> hit_view(#[trigger] out@[k]) == want[k],
        decreases subs@.len() - i,
    {
        let cnt = count_member(&subs[i], "start", 0);
        let start = cnt as usize;
        assert(cnt == member_count(subs@[i as int], "start"@, 0));
        let found = byte_to_char(&tc, start);
        let col = match found {
            Some(k) => k,
            None => 0,
        };
        assert(byte_boundary(tc@, start as int) == byte_boundary(tc@, member_count(subs@[i as int], "start"@, 0) as usize as int));
        proof {
            if byte_boundary(tc@, start as int) is Some {
                let k = choose|k: int| 0 <= k <= tc@.len() && crate::text::utf8_prefix(tc@, k) == start as int;
                assert(byte_boundary(tc@, start as int) == Some(k));
                assert(found == Some(k as usize));
            }
        }
        out.push((string_from(&chars_of(path.as_str())), line, col, string_from(&tc)));
        assert(col as int == hit_col(tc@, subs@[i as int]));
        assert(hit_view(out@[i as int]) == want[i as int]);
        i += 1;
    }
    assert(out@.map_values(|h: (String, usize, usize, String)| hit_view(h)) =~= want);
    out
}

} // verus!
