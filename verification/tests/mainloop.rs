use vaayu::mainloop::{grep_accepted, grep_due, grep_error, match_column, next_wait, LoopView, Wait};

fn view() -> LoopView {
    LoopView {
        should_quit: false,
        pending_jk_since: None,
        timeoutlen_ms: 300,
        leader_since: None,
        whichkey_delay_ms: 500,
        completion_since: None,
        completion_delay_ms: 0,
    }
}

#[test]
fn an_idle_loop_polls_every_ten_ms() {
    assert_eq!(next_wait(&view(), 1000), Wait::Idle(10));
    let mut v = view();
    v.should_quit = true;
    v.pending_jk_since = Some(0);
    assert_eq!(next_wait(&v, 1000), Wait::Quit);
}

#[test]
fn a_pending_j_waits_out_the_timeout() {
    let mut v = view();
    v.pending_jk_since = Some(1000);
    assert_eq!(next_wait(&v, 1100), Wait::KeyOrFlushJk(200));
    assert_eq!(next_wait(&v, 1300), Wait::FlushJk);
    v.timeoutlen_ms = 0;
    assert_eq!(next_wait(&v, 1000), Wait::KeyOrFlushJk(1), "the timeout is at least 1 ms");
}

#[test]
fn popups_wait_out_their_delays() {
    let mut v = view();
    v.leader_since = Some(1000);
    assert_eq!(next_wait(&v, 1200), Wait::KeyOrRedraw(300));
    assert_eq!(next_wait(&v, 1600), Wait::Idle(10));
    v.leader_since = None;
    v.completion_since = Some(1000);
    assert_eq!(next_wait(&v, 1000), Wait::Idle(10), "no delay by default");
    v.completion_delay_ms = 50;
    assert_eq!(next_wait(&v, 1020), Wait::KeyOrRedraw(30));
}

#[test]
fn live_grep_waits_120_ms_and_keeps_only_the_latest() {
    assert!(!grep_due(1000, 1119));
    assert!(grep_due(1000, 1120));
    assert!(!grep_due(1000, 900));
    assert!(grep_accepted(3, 3, true));
    assert!(!grep_accepted(2, 3, true));
    assert!(!grep_accepted(3, 3, false));
}

#[test]
fn grep_errors_and_match_columns() {
    assert_eq!(grep_error(5000, Some(0), ""), Some("Showing first 5,000 matches; narrow the query".to_string()));
    assert_eq!(grep_error(3, Some(2), "  bad regex \n"), Some("bad regex".to_string()));
    assert_eq!(grep_error(0, Some(1), "x"), None);
    assert_eq!(grep_error(0, None, "x"), None);
    assert_eq!(match_column("\u{e9}ab", 2), 1);
    assert_eq!(match_column("\u{e9}ab", 1), 0, "inside a char");
    assert_eq!(match_column("ab", 9), 0);
}
