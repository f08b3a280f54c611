//! The `:gitstatus` workspace's reading of `git status`: each changed path
//! sorted into staged, unstaged, untracked and conflicted, keeping the
//! index and worktree codes apart (a partially staged file is in both).
use vstd::prelude::*;
use crate::git_tools::{is_rename, record_parts, record_spans, records, split_record};
use crate::text::{chars_of, copy_range, string_from};

verus! {

/// The sections of a status report: staged `(path, index code)`, unstaged
/// `(path, worktree code)`, untracked paths and conflicted paths.
pub struct StatusView {
    pub staged: Seq<(Seq<char>, char)>,
    pub unstaged: Seq<(Seq<char>, char)>,
    pub untracked: Seq<Seq<char>>,
    pub conflicts: Seq<Seq<char>>,
}

/// Whether a code pair marks a merge conflict.
pub open spec fn conflict_code(xy: Seq<char>) -> bool {
    xy == "UU"@ || xy == "AA"@ || xy == "DD"@ || xy == "AU"@ || xy == "UA"@ || xy == "UD"@ || xy == "DU"@
}

/// One record's contribution: `??` is untracked, a conflict code a
/// conflict; otherwise a non-space index code (first char) makes the path
/// staged and a non-space worktree code (second char) unstaged.
pub open spec fn status_row(v: StatusView, xy: Seq<char>, path: Seq<char>) -> StatusView {
    if xy == "??"@ {
        StatusView { untracked: v.untracked.push(path), ..v }
    } else if conflict_code(xy) {
        StatusView { conflicts: v.conflicts.push(path), ..v }
    } else {
        let x = if xy.len() > 0 { xy[0] } else { ' ' };
        let y = if xy.len() > 1 { xy[1] } else { ' ' };
        let v1 = if x != ' ' { StatusView { staged: v.staged.push((path, x)), ..v } } else { v };
        if y != ' ' { StatusView { unstaged: v1.unstaged.push((path, y)), ..v1 } } else { v1 }
    }
}

/// The report of records `rs[k..]` of `out` added to `v`; the record after
/// a rename or copy (its original path) is skipped.
pub open spec fn workspace_from(out: Seq<char>, rs: Seq<(int, int)>, k: int, v: StatusView) -> StatusView
    decreases rs.len() + 1 - k,
{
    if k < 0 || k >= rs.len() {
        v
    } else {
        match record_parts(out.subrange(rs[k].0, rs[k].1)) {
            None => workspace_from(out, rs, k + 1, v),
            Some((xy, path)) => workspace_from(out, rs, if is_rename(xy) { k + 2 } else { k + 1 }, status_row(v, xy, path)),
        }
    }
}

/// The report of a `git status --porcelain=v1 -z --untracked-files=all`
/// output; paths are as git gives them, relative to the repository root.
pub open spec fn parse_status_spec(out: Seq<char>) -> StatusView {
    workspace_from(out, records(out), 0, StatusView { staged: seq![], unstaged: seq![], untracked: seq![], conflicts: seq![] })
}

/// The views of `(path, code)` rows.
pub open spec fn code_rows(v: Seq<(String, char)>) -> Seq<(Seq<char>, char)> {
    v.map_values(|r: (String, char)| (r.0@, r.1))
}

/// Sorts a `git status` output into the workspace's sections.
pub fn parse_status(out: &str) -> (r: (Vec<(String, char)>, Vec<(String, char)>, Vec<String>, Vec<String>))
    ensures
        code_rows(r.0@) == parse_status_spec(out@).staged,
        code_rows(r.1@) == parse_status_spec(out@).unstaged,
        crate::text::views(r.2@) == parse_status_spec(out@).untracked,
        crate::text::views(r.3@) == parse_status_spec(out@).conflicts,
{
    let s = chars_of(out);
    let rs = record_spans(&s);
    let ghost rsi = records(s@);
    let mut staged: Vec<(String, char)> = Vec::new();
    let mut unstaged: Vec<(String, char)> = Vec::new();
    let mut untracked: Vec<String> = Vec::new();
    let mut conflicts: Vec<String> = Vec::new();
    let qq = chars_of("??");
    let codes = ["UU", "AA", "DD", "AU", "UA", "UD", "DU"];
    let mut k: usize = 0;
    assert(code_rows(staged@) =~= Seq::<(Seq<char>, char)>::empty());
    assert(code_rows(unstaged@) =~= Seq::<(Seq<char>, char)>::empty());
    assert(crate::text::views(untracked@) =~= Seq::<Seq<char>>::empty());
    assert(crate::text::views(conflicts@) =~= Seq::<Seq<char>>::empty());
    while k < rs.len()
        invariant
            rsi == records(s@),
            rs@.map_values(|p: (usize, usize)| (p.0 as int, p.1 as int)) == rsi,
            forall|j: int| 0 <= j < rs@.len() ==> (#[trigger] rs@[j]).0 < rs@[j].1 <= s@.len(),
            s@ == out@,
            qq@ == "??"@,
            codes@ == seq!["UU", "AA", "DD", "AU", "UA", "UD", "DU"],
            k <= rs@.len() + 1,
            workspace_from(s@, rsi, k as int, StatusView {
                staged: code_rows(staged@),
                unstaged: code_rows(unstaged@),
                untracked: crate::text::views(untracked@),
                conflicts: crate::text::views(conflicts@),
            }) == parse_status_spec(out@),
        decreases rs@.len() + 1 - k,
    {
        assert(rsi[k as int] == (rs@[k as int].0 as int, rs@[k as int].1 as int));
        let e = copy_range(&s, rs[k].0, rs[k].1);
        let ghost k0 = k as int;
        let ghost v0 = StatusView {
            staged: code_rows(staged@),
            unstaged: code_rows(unstaged@),
            untracked: crate::text::views(untracked@),
            conflicts: crate::text::views(conflicts@),
        };
        match split_record(&e) {
            None => {
                k += 1;
            },
            Some((xy, path)) => {
                let mut conflict = false;
                let mut c: usize = 0;
                while c < codes.len()
                    invariant
                        codes@ == seq!["UU", "AA", "DD", "AU", "UA", "UD", "DU"],
                        c <= codes@.len(),
                        conflict == exists|j: int| 0 <= j < c && (#[trigger] codes@[j])@ == xy@,
                    decreases codes@.len() - c,
                {
                    if crate::text::chars_eq(&xy, &chars_of(codes[c])) {
                        conflict = true;
                    }
                    c += 1;
                }
                assert(conflict == conflict_code(xy@)) by {
                    if conflict_code(xy@) {
                        if xy@ == "UU"@ { assert(codes@[0]@ == xy@); }
                        if xy@ == "AA"@ { assert(codes@[1]@ == xy@); }
                        if xy@ == "DD"@ { assert(codes@[2]@ == xy@); }
                        if xy@ == "AU"@ { assert(codes@[3]@ == xy@); }
                        if xy@ == "UA"@ { assert(codes@[4]@ == xy@); }
                        if xy@ == "UD"@ { assert(codes@[5]@ == xy@); }
                        if xy@ == "DU"@ { assert(codes@[6]@ == xy@); }
                    }
                }
                let ghost v1 = status_row(v0, xy@, path@);
                if crate::text::chars_eq(&xy, &qq) {
                    let ghost before = untracked@;
                    untracked.push(string_from(&path));
                    assert(crate::text::views(untracked@) =~= crate::text::views(before).push(path@));
                } else if conflict {
                    let ghost before = conflicts@;
                    conflicts.push(string_from(&path));
                    assert(crate::text::views(conflicts@) =~= crate::text::views(before).push(path@));
                } else {
                    let x = if xy.len() > 0 { xy[0] } else { ' ' };
                    let y = if xy.len() > 1 { xy[1] } else { ' ' };
                    if x != ' ' {
                        let ghost before = staged@;
                        staged.push((string_from(&path), x));
                        assert(code_rows(staged@) =~= code_rows(before).push((path@, x)));
                    }
                    if y != ' ' {
                        let ghost before = unstaged@;
                        unstaged.push((string_from(&path), y));
                        assert(code_rows(unstaged@) =~= code_rows(before).push((path@, y)));
                    }
                }
                assert(v1 == StatusView {
                    staged: code_rows(staged@),
                    unstaged: code_rows(unstaged@),
                    untracked: crate::text::views(untracked@),
                    conflicts: crate::text::views(conflicts@),
                });
                k += 1;
                if xy.len() > 0 && (xy[0] == 'R' || xy[0] == 'C') && k < rs.len() {
                    k += 1;
                }
                assert(workspace_from(s@, rsi, k as int, v1) == workspace_from(s@, rsi, if is_rename(xy@) { k0 + 2 } else { k0 + 1 }, v1));
            },
        }
    }
    (staged, unstaged, untracked, conflicts)
}

} // verus!
