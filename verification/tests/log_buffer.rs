use dev_manager_mcp::log_buffer::{LogBuffer, MAX_BYTES, MAX_TAIL_LINES};
use dev_manager_mcp::server_entry::capture_line;

fn numbered_line(i: usize) -> String {
    // 100 bytes: 99 characters and the line end
    let mut line = format!("{:06}", i);
    while line.len() < 99 {
        line.push('x');
    }
    line.push('\n');
    line
}

#[test]
fn constants_have_documented_values() {
    assert_eq!(MAX_BYTES, 512 * 1024);
    assert_eq!(MAX_TAIL_LINES, 100);
}

#[test]
fn new_buffer_is_empty() {
    let buffer = LogBuffer::new();
    assert_eq!(buffer.total_bytes(), 0);
    assert_eq!(buffer.line_count(), 0);
    assert_eq!(buffer.tail(), (String::new(), false));
}

#[test]
fn push_counts_bytes() {
    let mut buffer = LogBuffer::new();
    buffer.push("abc\n".to_string());
    buffer.push("de\n".to_string());
    assert_eq!(buffer.total_bytes(), 7);
    assert_eq!(buffer.line_count(), 2);
    assert_eq!(buffer.tail(), ("abc\nde\n".to_string(), false));
}

#[test]
fn push_counts_encoded_bytes_not_characters() {
    let mut buffer = LogBuffer::new();
    buffer.push("é€\n".to_string());
    assert_eq!(buffer.total_bytes(), 2 + 3 + 1);
    assert_eq!(buffer.tail().0, "é€\n");
}

#[test]
fn log_cap_keeps_newest_lines_within_cap() {
    let mut buffer = LogBuffer::new();
    for i in 0..10_000 {
        buffer.push(numbered_line(i));
        assert!(buffer.total_bytes() <= 524_288);
        assert_eq!(buffer.total_bytes(), buffer.line_count() * 100);
    }
    // 5242 lines of 100 bytes fit, 5243 do not
    assert_eq!(buffer.line_count(), 5242);
    assert_eq!(buffer.total_bytes(), 524_200);
    let (text, truncated) = buffer.tail();
    let mut expected = String::new();
    for i in 9_900..10_000 {
        expected.push_str(&numbered_line(i));
    }
    assert_eq!(text, expected);
    assert!(truncated);
}

#[test]
fn push_evicts_from_the_front_only_while_over_cap() {
    let mut buffer = LogBuffer::new();
    let half = "a".repeat(MAX_BYTES / 2);
    buffer.push(half.clone());
    buffer.push(half.clone());
    // exactly at the cap: nothing leaves
    assert_eq!(buffer.line_count(), 2);
    assert_eq!(buffer.total_bytes(), MAX_BYTES);
    buffer.push("b".to_string());
    // one byte over: the oldest line leaves, the rest stays
    assert_eq!(buffer.line_count(), 2);
    assert_eq!(buffer.total_bytes(), MAX_BYTES / 2 + 1);
    let (text, truncated) = buffer.tail();
    assert_eq!(text.len(), MAX_BYTES / 2 + 1);
    assert!(text.ends_with("ab"));
    assert!(!truncated);
}

#[test]
fn line_larger_than_cap_empties_the_buffer() {
    let mut buffer = LogBuffer::new();
    buffer.push("kept\n".to_string());
    buffer.push("z".repeat(MAX_BYTES + 1));
    assert_eq!(buffer.line_count(), 0);
    assert_eq!(buffer.total_bytes(), 0);
    assert_eq!(buffer.tail(), (String::new(), false));
}

#[test]
fn line_of_exactly_the_cap_is_kept_alone() {
    let mut buffer = LogBuffer::new();
    buffer.push("old\n".to_string());
    buffer.push("z".repeat(MAX_BYTES));
    assert_eq!(buffer.line_count(), 1);
    assert_eq!(buffer.total_bytes(), MAX_BYTES);
}

#[test]
fn tail_is_not_truncated_at_exactly_the_limit() {
    let mut buffer = LogBuffer::new();
    let mut expected = String::new();
    for i in 0..100 {
        let line = format!("{}\n", i);
        expected.push_str(&line);
        buffer.push(line);
    }
    assert_eq!(buffer.tail(), (expected, false));
}

#[test]
fn tail_drops_the_oldest_line_beyond_the_limit() {
    let mut buffer = LogBuffer::new();
    let mut expected = String::new();
    for i in 0..101 {
        let line = format!("{}\n", i);
        if i >= 1 {
            expected.push_str(&line);
        }
        buffer.push(line);
    }
    let (text, truncated) = buffer.tail();
    assert_eq!(text, expected);
    assert!(truncated);
    assert_eq!(text.lines().count(), 100);
    // the view leaves the buffer as it was
    assert_eq!(buffer.line_count(), 101);
}

#[test]
fn capture_line_restores_the_line_end() {
    let mut buffer = LogBuffer::new();
    capture_line(&mut buffer, "a".to_string());
    capture_line(&mut buffer, "b".to_string());
    capture_line(&mut buffer, "".to_string());
    assert_eq!(buffer.tail(), ("a\nb\n\n".to_string(), false));
    assert_eq!(buffer.total_bytes(), 5);
}
