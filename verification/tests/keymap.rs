use vaayu::config::KeymapCfg;
use vaayu::key::Key;
use vaayu::keymap::{build, leader_marker_len, parse_keys, parse_modes, parse_rhs, parse_token, Modes, Rhs};

#[test]
fn parse_keys_expands_tokens_and_keeps_the_rest_literal() {
    assert_eq!(parse_keys("Y", ','), vec![Key::Char('Y')]);
    assert_eq!(parse_keys("<leader>x", ','), vec![Key::Char(','), Key::Char('x')]);
    assert_eq!(parse_keys("<C-s>", ','), vec![Key::Ctrl('s')]);
    assert_eq!(parse_keys(":w<CR>", ','), vec![Key::Char(':'), Key::Char('w'), Key::Enter]);
    assert_eq!(parse_keys("<nope>", ','), vec![Key::Char('<'), Key::Char('n'), Key::Char('o'), Key::Char('p'), Key::Char('e'), Key::Char('>')]);
    assert_eq!(parse_keys("a<", ','), vec![Key::Char('a'), Key::Char('<')]);
}

#[test]
fn parse_token_is_case_insensitive() {
    assert_eq!(parse_token("ESC", ','), Some(vec![Key::Esc]));
    assert_eq!(parse_token("S-Tab", ','), Some(vec![Key::BackTab]));
    assert_eq!(parse_token("lt", ','), Some(vec![Key::Char('<')]));
    assert_eq!(parse_token("c-", ','), None);
    assert_eq!(parse_token("xyz", ','), None);
}

#[test]
fn parse_rhs_splits_ex_commands_from_keys() {
    assert_eq!(parse_rhs(":w<CR>", ','), Rhs::Ex("w".to_string()));
    assert_eq!(parse_rhs(":q", ','), Rhs::Ex("q".to_string()));
    assert_eq!(parse_rhs("dd", ','), Rhs::Keys(vec![Key::Char('d'), Key::Char('d')]));
}

#[test]
fn modes_and_leader_marker() {
    assert_eq!(parse_modes("nv"), Modes { normal: true, insert: false, visual: true });
    assert_eq!(leader_marker_len("<Leader>ff"), 8);
    assert_eq!(leader_marker_len(",ff"), 1);
}

#[test]
fn build_skips_empty_entries_and_finds_leader_sequences() {
    let cfgs = vec![
        KeymapCfg { mode: "n".to_string(), lhs: "<leader>ff".to_string(), rhs: ":files<CR>".to_string() },
        KeymapCfg { mode: "n".to_string(), lhs: "".to_string(), rhs: "x".to_string() },
        KeymapCfg { mode: "i".to_string(), lhs: "jj".to_string(), rhs: "<Esc>".to_string() },
    ];
    let maps = build(&cfgs, ',');
    assert_eq!(maps.len(), 2);
    assert_eq!(maps[0].leader_seq, Some("ff".to_string()));
    assert_eq!(maps[0].rhs, Rhs::Ex("files".to_string()));
    assert_eq!(maps[1].leader_seq, None);
    assert_eq!(maps[1].rhs, Rhs::Keys(vec![Key::Esc]));
    assert!(maps[1].modes.insert);
}
