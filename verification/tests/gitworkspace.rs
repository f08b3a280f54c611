use vaayu::git_tools::stash_show;
use vaayu::gitworkspace::parse_status;

#[test]
fn status_sorts_paths_into_sections() {
    let out = "M  staged.rs\0 M work.rs\0MM both.rs\0?? new.rs\0UU clash.rs\0R  to.rs\0from.rs\0";
    let (staged, unstaged, untracked, conflicts) = parse_status(out);
    assert_eq!(
        staged,
        vec![("staged.rs".to_string(), 'M'), ("both.rs".to_string(), 'M'), ("to.rs".to_string(), 'R')]
    );
    assert_eq!(unstaged, vec![("work.rs".to_string(), 'M'), ("both.rs".to_string(), 'M')]);
    assert_eq!(untracked, vec!["new.rs".to_string()]);
    assert_eq!(conflicts, vec!["clash.rs".to_string()]);
}

#[test]
fn status_of_a_clean_tree_is_empty() {
    let (a, b, c, d) = parse_status("");
    assert!(a.is_empty() && b.is_empty() && c.is_empty() && d.is_empty());
}

#[test]
fn stash_show_titles_the_entry_and_splits_lines() {
    let (title, lines) = stash_show("stash@{0}", "diff --git a/x b/x\n+new\n");
    assert_eq!(title, "Git stash: stash@{0}");
    assert_eq!(lines, vec!["diff --git a/x b/x".to_string(), "+new".to_string()]);
}
