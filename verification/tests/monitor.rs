use ava::monitor::{Monitor, MINIMUM_LINE_BYTES, REPEATED_LINE_THRESHOLD};
use ava::registry;

const FALLBACK_LINE: &[u8] = b"{\"type\":\"system\",\"subtype\":\"model_refusal_fallback\"}\n";

#[test]
fn fallback_is_seen_across_reads() {
    let mut monitor = Monitor::new(registry::CODE_HARNESS);
    let (first, second) = FALLBACK_LINE.split_at(FALLBACK_LINE.len() / 2);

    monitor.observe(first, true);
    assert!(!monitor.fell_back());
    monitor.observe(second, true);
    assert!(monitor.fell_back());
}

#[test]
fn fallback_is_only_read_from_the_event_stream() {
    let mut monitor = Monitor::new(registry::CODE_HARNESS);
    monitor.observe(FALLBACK_LINE, false);
    assert!(!monitor.fell_back());
}

#[test]
fn fallback_outlives_a_restart() {
    let mut monitor = Monitor::new(registry::CODE_HARNESS);
    monitor.observe(FALLBACK_LINE, true);
    monitor.restart();
    assert!(monitor.fell_back());
}

#[test]
fn harness_without_marker_never_falls_back() {
    let mut monitor = Monitor::new(registry::PI_HARNESS);
    monitor.observe(FALLBACK_LINE, true);
    assert!(!monitor.fell_back());
}

#[test]
fn every_byte_is_counted_on_either_stream() {
    let mut monitor = Monitor::new(registry::PI_HARNESS);
    monitor.observe(b"abc", false);
    monitor.observe(b"de\nf", true);
    assert_eq!(monitor.output_bytes(), 7);
    monitor.restart();
    assert_eq!(monitor.output_bytes(), 7);
}

#[test]
fn ten_repeats_of_a_long_line_look_like_a_loop() {
    let line = b"still thinking about it\n";
    assert!(line.len() as u64 > MINIMUM_LINE_BYTES);
    let mut monitor = Monitor::new(registry::PI_HARNESS);
    for _ in 0..REPEATED_LINE_THRESHOLD - 1 {
        monitor.observe(line, true);
    }
    assert!(!monitor.doom_looping());
    monitor.observe(line, true);
    assert!(monitor.doom_looping());
}

#[test]
fn a_loop_is_seen_however_the_lines_are_cut() {
    let mut stream = Vec::new();
    for _ in 0..REPEATED_LINE_THRESHOLD {
        stream.extend_from_slice(b"still thinking about it\n");
    }
    let mut monitor = Monitor::new(registry::PI_HARNESS);
    for chunk in stream.chunks(7) {
        monitor.observe(chunk, true);
    }
    assert!(monitor.doom_looping());
}

#[test]
fn short_lines_never_count_as_repeats() {
    let mut monitor = Monitor::new(registry::PI_HARNESS);
    for _ in 0..3 * REPEATED_LINE_THRESHOLD {
        monitor.observe(b"ok\n", true);
    }
    assert!(!monitor.doom_looping());
}

#[test]
fn another_line_breaks_the_repeats() {
    let mut monitor = Monitor::new(registry::PI_HARNESS);
    for round in 0..2 * REPEATED_LINE_THRESHOLD {
        if round % 5 == 4 {
            monitor.observe(b"something else entirely\n", true);
        } else {
            monitor.observe(b"still thinking about it\n", true);
        }
    }
    assert!(!monitor.doom_looping());
}

#[test]
fn a_restart_forgets_the_loop_but_not_the_fallback() {
    let mut monitor = Monitor::new(registry::CODE_HARNESS);
    for _ in 0..REPEATED_LINE_THRESHOLD {
        monitor.observe(b"still thinking about it\n", true);
    }
    monitor.observe(FALLBACK_LINE, true);
    assert!(monitor.doom_looping());
    monitor.restart();
    assert!(!monitor.doom_looping());
    assert!(monitor.fell_back());
}

#[test]
fn a_restart_starts_the_repeat_count_over() {
    let mut monitor = Monitor::new(registry::CODE_HARNESS);
    for _ in 0..REPEATED_LINE_THRESHOLD - 1 {
        monitor.observe(b"still thinking about it\n", true);
    }
    assert!(!monitor.doom_looping());
    monitor.restart();
    monitor.observe(b"still thinking about it\n", true);
    assert!(!monitor.doom_looping());
    assert_eq!(monitor.output_bytes(), 24 * REPEATED_LINE_THRESHOLD as u64);
}

#[test]
fn an_empty_read_changes_nothing_counted() {
    let mut monitor = Monitor::new(registry::CODE_HARNESS);
    monitor.observe(b"some output\n", true);
    monitor.observe(b"", true);
    assert_eq!(monitor.output_bytes(), 12);
    assert!(!monitor.fell_back());
    assert!(!monitor.doom_looping());
}

#[test]
fn a_restart_drops_the_carry_of_a_split_marker() {
    let mut monitor = Monitor::new(registry::CODE_HARNESS);
    let (first, second) = FALLBACK_LINE.split_at(FALLBACK_LINE.len() / 2);
    monitor.observe(first, true);
    monitor.restart();
    monitor.observe(second, true);
    assert!(!monitor.fell_back());
}

#[test]
fn the_marker_split_byte_by_byte_is_seen() {
    let mut monitor = Monitor::new(registry::CODE_HARNESS);
    for byte in FALLBACK_LINE {
        monitor.observe(std::slice::from_ref(byte), true);
    }
    assert!(monitor.fell_back());
}

#[test]
fn the_silence_clock_runs() {
    let monitor = Monitor::new(registry::PI_HARNESS);
    assert!(monitor.silent_for() < std::time::Duration::from_secs(3600));
}

#[test]
fn a_tenth_repeat_in_a_later_read_marks_a_loop() {
    let line: &[u8] = b"0123456789abcdef\n";
    let mut monitor = Monitor::new(registry::PI_HARNESS);
    monitor.observe(&line.repeat(9), true);
    assert!(!monitor.doom_looping());
    monitor.observe(line, true);
    assert!(monitor.doom_looping());
}

#[test]
fn repeats_spread_over_many_reads_mark_a_loop() {
    let line: &[u8] = b"0123456789abcdef\n";
    let mut monitor = Monitor::new(registry::PI_HARNESS);
    for count in [1usize, 3, 2, 3] {
        assert!(!monitor.doom_looping());
        monitor.observe(&line.repeat(count), true);
    }
    assert!(!monitor.doom_looping());
    monitor.observe(line, true);
    assert!(monitor.doom_looping());
}

#[test]
fn a_hundred_short_lines_never_loop() {
    let mut monitor = Monitor::new(registry::PI_HARNESS);
    monitor.observe(&b"0123456789abcde\n".repeat(100), true);
    assert!(!monitor.doom_looping());
}
