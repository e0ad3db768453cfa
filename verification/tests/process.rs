use ava::process::{next_poll, printed, relay, relay_text, Poll};

#[test]
fn printed_output_is_trimmed() {
    assert_eq!(printed(b"  v1.2.3\n"), "v1.2.3");
    assert_eq!(printed(b"\t\r\n"), "");
    assert_eq!(printed(b"a b"), "a b");
}

#[test]
fn invalid_bytes_become_replacement_characters() {
    assert_eq!(printed(b"ok\xffgo"), "ok\u{fffd}go");
}

#[test]
fn relayed_lines_skip_the_blank_ones() {
    let logged = relay("docker", b"first\n\n   \nsecond\r\nthird");
    assert_eq!(logged, vec!["docker: first", "docker: second", "docker: third"]);
}

#[test]
fn relayed_lines_keep_their_inner_space() {
    let logged = relay("git", b"  indented \n");
    assert_eq!(logged, vec!["git:   indented "]);
    assert!(relay("git", b"").is_empty());
}

#[test]
fn a_bounded_wait_decides_on_the_exit_first() {
    assert_eq!(next_poll(Some(true), false), Poll::Finished);
    assert_eq!(next_poll(Some(true), true), Poll::Finished);
    assert_eq!(next_poll(Some(false), false), Poll::Failed);
    assert_eq!(next_poll(Some(false), true), Poll::Failed);
    assert_eq!(next_poll(None, true), Poll::TimedOut);
    assert_eq!(next_poll(None, false), Poll::Wait);
}

#[test]
fn relayed_text_is_cut_into_lines() {
    let text: Vec<char> = "one\r\n\n two".chars().collect();
    assert_eq!(relay_text("tool", &text), vec!["tool: one", "tool:  two"]);
    assert_eq!(relay("tool", "one\r\n\n two".as_bytes()), relay_text("tool", &text));
}
