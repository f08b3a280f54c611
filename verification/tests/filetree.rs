use vaayu::filetree::{FileTree, Listing, TreeAction};
use vaayu::key::Key;

fn listing(dir: &str, files: &[&str], dirs: &[&str]) -> Listing {
    let mut es: Vec<(String, bool)> = files.iter().map(|f| (f.to_string(), false)).collect();
    es.extend(dirs.iter().map(|d| (d.to_string(), true)));
    (dir.to_string(), es)
}

fn names(t: &FileTree) -> Vec<String> {
    t.nodes.iter().map(|n| n.name.clone()).collect()
}

#[test]
fn lists_root_and_skips_dot_git() {
    let ls = vec![listing("/p", &["a.txt", "b.txt"], &["src", ".git"])];
    let t = FileTree::new("/p".to_string(), &ls);
    let n = names(&t);
    assert!(n.contains(&"a.txt".to_string()));
    assert!(n.contains(&"src".to_string()));
    assert!(!n.contains(&".git".to_string()));
}

#[test]
fn dotfiles_are_hidden_until_toggled() {
    let ls = vec![listing("/p", &["a.txt", ".hidden"], &[".hiddendir", "src", ".git"])];
    let mut t = FileTree::new("/p".to_string(), &ls);
    let n = names(&t);
    assert!(n.contains(&"a.txt".to_string()));
    assert!(!n.contains(&".hidden".to_string()));
    assert!(!n.contains(&".hiddendir".to_string()));
    t.show_hidden = true;
    t.rebuild(&ls);
    let n = names(&t);
    assert!(n.contains(&".hidden".to_string()));
    assert!(n.contains(&".hiddendir".to_string()));
    assert!(!n.contains(&".git".to_string()), ".git stays hidden even with show_hidden");
}

#[test]
fn directories_sort_before_files_then_alphabetically() {
    let ls = vec![listing("/p", &["z.txt", "a.txt", "B.txt"], &["dirb", "dira"])];
    let t = FileTree::new("/p".to_string(), &ls);
    assert_eq!(names(&t), vec!["dira", "dirb", "a.txt", "B.txt", "z.txt"]);
    assert_eq!(t.nodes[0].path, "/p/dira");
}

#[test]
fn expand_collapse_toggles_children_lazily() {
    let ls = vec![listing("/p", &["outer.txt"], &["sub"]), listing("/p/sub", &["inner.txt"], &[])];
    let mut t = FileTree::new("/p".to_string(), &ls);
    assert_eq!(t.nodes.len(), 2);
    t.cursor = t.nodes.iter().position(|n| n.name == "sub").unwrap();
    assert!(t.activate(&ls).is_none(), "activating a directory must not open it");
    assert_eq!(t.nodes.len(), 3, "expanding should reveal inner.txt");
    assert!(t.nodes.iter().any(|n| n.name == "inner.txt" && n.depth == 1 && n.path == "/p/sub/inner.txt"));
    assert_eq!(t.nodes[t.cursor].name, "sub");
    t.activate(&ls);
    assert_eq!(t.nodes.len(), 2);
    t.cursor = t.nodes.iter().position(|n| n.name == "outer.txt").unwrap();
    assert_eq!(t.activate(&ls), Some("/p/outer.txt".to_string()));
}

#[test]
fn reveal_expands_ancestors_and_selects_the_file() {
    let ls0 = vec![listing("/p", &[], &["a"])];
    let mut t = FileTree::new("/p".to_string(), &ls0);
    assert_eq!(t.nodes.len(), 1, "nothing expanded yet");
    assert_eq!(t.reveal_dirs("/p/a/b/c.txt"), vec!["/p/a".to_string(), "/p/a/b".to_string()]);
    let ls = vec![listing("/p", &[], &["a"]), listing("/p/a", &[], &["b"]), listing("/p/a/b", &["c.txt"], &[])];
    t.reveal_file("/p/a/b/c.txt", &ls);
    assert_eq!(t.nodes[t.cursor].path, "/p/a/b/c.txt");
    assert_eq!(t.nodes[t.cursor].depth, 2);
    assert_eq!(t.listed_dirs(), vec!["/p".to_string(), "/p/a".to_string(), "/p/a/b".to_string()]);
}

#[test]
fn reveal_outside_the_root_changes_nothing() {
    let ls = vec![listing("/p", &["x"], &[])];
    let mut t = FileTree::new("/p".to_string(), &ls);
    t.reveal_file("/q/x", &ls);
    assert!(t.expanded.is_empty());
    assert!(t.reveal_dirs("/pp/x").is_empty());
}

#[test]
fn filter_narrows_the_loaded_rows_by_name() {
    let ls = vec![listing("/p", &["apple.txt", "Banana.txt", "cherry.txt"], &[])];
    let mut t = FileTree::new("/p".to_string(), &ls);
    t.cursor = 2;
    t.filter = "AN".to_string();
    t.rebuild(&ls);
    assert_eq!(names(&t), vec!["Banana.txt"]);
    assert_eq!(t.cursor, 0);
}

#[test]
fn ignored_paths_show_only_on_request() {
    let ls = vec![listing("/p", &["keep.rs", "skip.log"], &["target"])];
    let mut t = FileTree::new("/p".to_string(), &ls);
    t.gitignored = vec!["/p/skip.log".to_string(), "/p/target".to_string()];
    t.rebuild(&ls);
    assert_eq!(names(&t), vec!["keep.rs"]);
    t.show_ignored = true;
    t.rebuild(&ls);
    assert_eq!(names(&t), vec!["target", "keep.rs", "skip.log"]);
}

#[test]
fn cursor_moves_within_the_rows_and_targets_a_directory() {
    let ls = vec![listing("/p", &["f.txt"], &["d"])];
    let mut t = FileTree::new("/p".to_string(), &ls);
    t.move_cursor(5);
    assert_eq!(t.cursor, 1);
    assert_eq!(t.target_dir(), "/p");
    t.move_cursor(-3);
    assert_eq!(t.cursor, 0);
    assert_eq!(t.target_dir(), "/p/d");
}

#[test]
fn h_collapses_a_directory_then_goes_to_the_parent() {
    let ls = vec![listing("/p", &["outer.txt"], &["sub"]), listing("/p/sub", &["inner.txt"], &[])];
    let mut t = FileTree::new("/p".to_string(), &ls);
    t.cursor = t.nodes.iter().position(|n| n.name == "sub").unwrap();
    t.activate(&ls);
    t.cursor = t.nodes.iter().position(|n| n.name == "inner.txt").unwrap();
    t.collapse_or_parent(&ls);
    assert_eq!(t.nodes[t.cursor].path, "/p/sub", "a file goes to its directory's row");
    assert_eq!(t.nodes.len(), 3, "nothing collapsed yet");
    t.collapse_or_parent(&ls);
    assert_eq!(t.nodes.len(), 2, "the expanded directory collapses");
    assert_eq!(t.nodes[t.cursor].path, "/p/sub");
    t.collapse_or_parent(&ls);
    assert_eq!(t.nodes[t.cursor].path, "/p/sub", "the root has no row, so the cursor stays");
}

#[test]
fn d_twice_on_one_path_deletes_and_other_keys_cancel() {
    let ls = vec![listing("/p", &["a.txt", "b.txt"], &[])];
    let mut t = FileTree::new("/p".to_string(), &ls);
    assert!(matches!(t.on_key(Key::Char('d'), &ls), TreeAction::ArmDelete(ref p) if p == "/p/a.txt"));
    assert_eq!(t.confirm_delete.as_deref(), Some("/p/a.txt"));
    assert!(matches!(t.on_key(Key::Char('j'), &ls), TreeAction::Nothing));
    assert_eq!(t.confirm_delete, None, "any other key cancels");
    assert_eq!(t.cursor, 1);
    assert!(matches!(t.on_key(Key::Char('d'), &ls), TreeAction::ArmDelete(_)));
    assert!(matches!(t.on_key(Key::Char('d'), &ls), TreeAction::Delete(ref p) if p == "/p/b.txt"));
    assert_eq!(t.confirm_delete, None);
    assert!(matches!(t.on_key(Key::Char('t'), &ls), TreeAction::ArmTrash(_)));
    assert!(matches!(t.on_key(Key::Char('t'), &ls), TreeAction::Trash(ref p) if p == "/p/b.txt"));
}

#[test]
fn tree_keys_copy_cut_bookmark_and_close() {
    let ls = vec![listing("/p", &["a.txt"], &[])];
    let mut t = FileTree::new("/p".to_string(), &ls);
    assert!(matches!(t.on_key(Key::Char('y'), &ls), TreeAction::Copied(_)));
    assert_eq!(t.clipboard, Some(("/p/a.txt".to_string(), false)));
    assert!(matches!(t.on_key(Key::Char('x'), &ls), TreeAction::CutMarked(_)));
    assert_eq!(t.clipboard, Some(("/p/a.txt".to_string(), true)));
    assert!(matches!(t.on_key(Key::Char('m'), &ls), TreeAction::Bookmarked(_)));
    assert_eq!(t.bookmarks, vec!["/p/a.txt".to_string()]);
    assert!(matches!(t.on_key(Key::Char('m'), &ls), TreeAction::Unbookmarked(_)));
    assert!(t.bookmarks.is_empty());
    assert!(matches!(t.on_key(Key::Char('p'), &ls), TreeAction::Paste));
    assert!(matches!(t.on_key(Key::Char('a'), &ls), TreeAction::Command(ref c) if c == "treenew "));
    assert!(matches!(t.on_key(Key::Esc, &ls), TreeAction::Close));
}

#[test]
fn slash_filters_the_loaded_rows() {
    let ls = vec![listing("/p", &["alpha.rs", "beta.rs"], &[])];
    let mut t = FileTree::new("/p".to_string(), &ls);
    assert!(matches!(t.on_key(Key::Char('/'), &ls), TreeAction::FilterShown));
    assert!(t.filter_input);
    t.on_key(Key::Char('B'), &ls);
    assert_eq!(t.filter, "B");
    assert_eq!(names(&t), vec!["beta.rs"]);
    t.on_key(Key::Backspace, &ls);
    assert_eq!(t.nodes.len(), 2);
    t.on_key(Key::Char('x'), &ls);
    assert!(t.nodes.is_empty());
    t.on_key(Key::Esc, &ls);
    assert!(!t.filter_input);
    assert_eq!(t.filter, "");
    assert_eq!(t.nodes.len(), 2);
}

#[test]
fn enter_opens_files_and_dot_shows_dotfiles() {
    let ls = vec![listing("/p", &["a.txt", ".env"], &[])];
    let mut t = FileTree::new("/p".to_string(), &ls);
    assert_eq!(t.nodes.len(), 1);
    assert!(matches!(t.on_key(Key::Enter, &ls), TreeAction::Open(ref p) if p == "/p/a.txt"));
    t.on_key(Key::Char('.'), &ls);
    assert_eq!(t.nodes.len(), 2);
    t.on_key(Key::Char('G'), &ls);
    assert_eq!(t.cursor, 1);
    t.on_key(Key::Home, &ls);
    assert_eq!(t.cursor, 0);
}

#[test]
fn ignored_paths_stay_hidden_inside_expanded_directories() {
    let ls = vec![listing("/p", &["a.rs"], &["src"]), listing("/p/src", &["gen.rs", "lib.rs"], &[])];
    let mut t = FileTree::new("/p".to_string(), &ls);
    t.gitignored = vec!["/p/src/gen.rs".to_string()];
    t.expanded = vec!["/p/src".to_string()];
    t.rebuild(&ls);
    assert_eq!(names(&t), vec!["src", "lib.rs", "a.rs"]);
}

#[test]
fn siblings_keep_their_order_around_an_expanded_directory() {
    let ls = vec![
        listing("/p", &["Zeta.txt", "alpha.txt"], &["lib", "app"]),
        listing("/p/app", &["y.rs", "x.rs"], &["sub"]),
    ];
    let mut t = FileTree::new("/p".to_string(), &ls);
    t.expanded = vec!["/p/app".to_string()];
    t.rebuild(&ls);
    let rows: Vec<(String, usize)> = t.nodes.iter().map(|n| (n.name.clone(), n.depth)).collect();
    let want: Vec<(String, usize)> = [("app", 0), ("sub", 1), ("x.rs", 1), ("y.rs", 1), ("lib", 0), ("alpha.txt", 0), ("Zeta.txt", 0)]
        .iter()
        .map(|(n, d)| (n.to_string(), *d))
        .collect();
    assert_eq!(rows, want);
}
