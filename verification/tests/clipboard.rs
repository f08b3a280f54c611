use vaayu::clipboard::{osc52, osc52_frame};

#[test]
fn copy_sequence_carries_the_base64_text() {
    assert_eq!(osc52("hi", false), Some("\x1b]52;c;aGk=\x07".to_string()));
    assert_eq!(osc52("é", false), Some("\x1b]52;c;w6k=\x07".to_string()));
}

#[test]
fn inside_tmux_the_sequence_is_wrapped_with_escapes_doubled() {
    assert_eq!(osc52("hi", true), Some("\x1bPtmux;\x1b\x1b]52;c;aGk=\x07\x1b\\".to_string()));
}

#[test]
fn payload_past_the_limit_is_not_sent() {
    let at_limit = "A".repeat(100_000);
    assert!(osc52_frame(&at_limit, false).is_some());
    let past = "A".repeat(100_001);
    assert_eq!(osc52_frame(&past, false), None);
    assert_eq!(osc52(&"x".repeat(75_003), false), None);
}
