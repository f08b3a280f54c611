use vaayu::git_tools::{
    blame_line_meta, hunk_range, ignored, parse_github_remote, run_outcome,
    status, head_commit, remote_url, hunks, stash_list,
};

#[test]
fn parses_an_ssh_remote() {
    assert_eq!(
        parse_github_remote("git@github.com:owner/repo.git"),
        Some(("owner".into(), "repo".into()))
    );
}

#[test]
fn parses_an_https_remote_without_the_git_suffix() {
    assert_eq!(
        parse_github_remote("https://github.com/owner/repo"),
        Some(("owner".into(), "repo".into()))
    );
}

#[test]
fn parses_the_long_ssh_url_form() {
    assert_eq!(
        parse_github_remote("ssh://git@github.com/owner/repo.git"),
        Some(("owner".into(), "repo".into()))
    );
}

#[test]
fn rejects_a_non_github_remote() {
    assert_eq!(parse_github_remote("git@gitlab.com:owner/repo.git"), None);
    assert_eq!(
        parse_github_remote("https://example.com/owner/repo.git"),
        None
    );
}

#[test]
fn remote_parsing_trims_and_strips_repeated_suffixes() {
    assert_eq!(
        parse_github_remote("  http://github.com/o/r.git.git\n"),
        Some(("o".into(), "r".into()))
    );
    assert_eq!(
        parse_github_remote("https://github.com/o/r.git//"),
        Some(("o".into(), "r.git".into()))
    );
    assert_eq!(
        parse_github_remote("https://github.com/o/r/extra"),
        Some(("o".into(), "r/extra".into()))
    );
    assert_eq!(parse_github_remote("https://github.com/o"), None);
    assert_eq!(parse_github_remote("https://github.com//r"), None);
}

#[test]
fn hunk_range_parses_a_normal_header() {
    assert_eq!(hunk_range("@@ -1,2 +1,3 @@\n"), Some((0, 2)));
}

#[test]
fn hunk_range_defaults_the_count_to_one_when_omitted() {
    assert_eq!(hunk_range("@@ -5 +5 @@\n"), Some((4, 4)));
}

#[test]
fn hunk_range_handles_a_pure_deletion() {
    assert_eq!(hunk_range("@@ -5,3 +4,0 @@\n"), Some((3, 3)));
}

#[test]
fn hunk_range_rejects_headers_without_a_plus_side() {
    assert_eq!(hunk_range(""), None);
    assert_eq!(hunk_range("@@ -5,3 @@\n+added"), None);
    assert_eq!(hunk_range("@@ -1 +x,2 @@"), None);
    assert_eq!(hunk_range("@@ -1 +2,y @@"), None);
    assert_eq!(hunk_range("@@ -1 +10,5 @@\nbody"), Some((9, 13)));
}

#[test]
fn blame_line_meta_strips_the_line_number_keeps_the_rest() {
    assert_eq!(
        blame_line_meta("abc1234 (Kush Ravi 2024-01-15 10:23:45 +0000  5) some code"),
        "abc1234 Kush Ravi 2024-01-15 10:23:45 +0000"
    );
}

#[test]
fn blame_line_meta_strips_a_boundary_commit_marker() {
    assert_eq!(
        blame_line_meta("^abc1234 (Kush Ravi 2024-01-15 10:23:45 +0000  1) first line"),
        "abc1234 Kush Ravi 2024-01-15 10:23:45 +0000"
    );
}

#[test]
fn blame_line_meta_falls_back_to_just_the_hash_on_a_malformed_line() {
    assert_eq!(blame_line_meta("not a real blame line"), "not");
    assert_eq!(blame_line_meta(""), "");
}

#[test]
fn status_collapses_each_record_to_one_marker() {
    let out = " M src/a.rs\0?? new.txt\0R  b.rs\0old_b.rs\0!! ignored\0MM both.rs\0";
    assert_eq!(
        status(out),
        vec![
            ("src/a.rs".to_string(), 'M'),
            ("new.txt".to_string(), '?'),
            ("b.rs".to_string(), 'R'),
            ("both.rs".to_string(), 'M'),
        ]
    );
    assert!(status("").is_empty());
}

#[test]
fn ignored_lists_only_bang_records() {
    let out = "!! target/\0?? x\0!! a b.txt\0";
    assert_eq!(
        ignored(out),
        vec!["target/".to_string(), "a b.txt".to_string()]
    );
}

#[test]
fn run_outcome_reports_stderr_size_and_stdout() {
    assert_eq!(
        run_outcome(false, 3, "out".into(), "  fatal: nope \n"),
        Err("fatal: nope".to_string())
    );
    assert_eq!(
        run_outcome(true, 9 * 1024 * 1024, "big".into(), ""),
        Err("Git output exceeds 8 MiB; narrow the operation".to_string())
    );
    assert_eq!(run_outcome(true, 2, "ok".into(), "warn"), Ok("ok".to_string()));
    assert_eq!(head_commit("abc123\n"), "abc123");
    assert_eq!(remote_url(" git@github.com:o/r.git\n"), "git@github.com:o/r.git");
}

#[test]
fn hunks_split_a_diff_and_keep_the_file_header() {
    let patch = "diff --git a/f b/f\n--- a/f\n+++ b/f\n@@ -1,2 +1,3 @@\n a\n+b\n c\n@@ -10 +11,2 @@ fn x\n-y\n+z\n+w\n";
    let (title, hs) = hunks(patch, false);
    assert_eq!(title, "Git hunks \u{2014} Enter stages one saved hunk");
    assert_eq!(hs.len(), 2);
    assert_eq!(hs[0].0, 0);
    assert_eq!(hs[0].1, "@@ -1,2 +1,3 @@");
    assert_eq!(hs[0].2, "@@ -1,2 +1,3 @@\n a\n+b\n c\n");
    assert_eq!(hs[0].3, format!("diff --git a/f b/f\n--- a/f\n+++ b/f\n{}", hs[0].2));
    assert_eq!(hs[1].0, 10);
    assert_eq!(hs[1].1, "@@ -10 +11,2 @@ fn x");
    assert_eq!(hs[1].2, "@@ -10 +11,2 @@ fn x\n-y\n+z\n+w\n");
}

#[test]
fn hunks_of_an_empty_diff_and_of_staged_changes() {
    let (title, hs) = hunks("", true);
    assert_eq!(title, "Staged hunks \u{2014} Enter unstages one hunk");
    assert!(hs.is_empty());
    let (_, hs) = hunks("@@ -0,0 +x @@\n+a", true);
    assert_eq!(hs.len(), 1);
    assert_eq!(hs[0].0, 0, "an unparsable start gives line 0");
    assert_eq!(hs[0].3, "@@ -0,0 +x @@\n+a");
}

#[test]
fn stash_entries_name_their_reference() {
    let out = "stash@{0}: WIP on main: 1234 msg\nstash@{1}: On dev: x\n";
    let es = stash_list(out);
    assert_eq!(
        es,
        vec![
            ("stash@{0}: WIP on main: 1234 msg".to_string(), "stash@{0}".to_string()),
            ("stash@{1}: On dev: x".to_string(), "stash@{1}".to_string()),
        ]
    );
    assert_eq!(stash_list("  odd line  "), vec![("  odd line  ".to_string(), "odd line".to_string())]);
    assert!(stash_list("").is_empty());
}

#[test]
fn status_lists_each_path_once_with_its_last_letter() {
    let out = " M a.rs\0?? b.rs\0A  a.rs\0";
    assert_eq!(status(out), vec![("a.rs".to_string(), 'A'), ("b.rs".to_string(), '?')]);
}
