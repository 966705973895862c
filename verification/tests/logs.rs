use gugu_guard::process::{
    recent_logs, rotated_file_name, rotated_log_path, rotation_check_due, rotation_limit, rotation_steps,
    trim_line_ending, LogBuffer, LogEntry, LogStream, MAX_LOG_LINES,
};

fn entry(t: i64, stream: LogStream, line: &str) -> LogEntry {
    LogEntry { timestamp: t, stream, line: line.to_string(), process_name: None }
}

#[test]
fn buffer_keeps_the_newest_lines() {
    let mut b = LogBuffer::new();
    for i in 0..(MAX_LOG_LINES + 5) {
        b.push(entry(i as i64, LogStream::Stdout, &i.to_string()));
    }
    assert_eq!(b.len(), MAX_LOG_LINES);
    assert_eq!(b.get(0).line, "5");
    assert_eq!(b.get(MAX_LOG_LINES - 1).line, (MAX_LOG_LINES + 4).to_string());
    b.clear();
    assert_eq!(b.len(), 0);
}

#[test]
fn recent_logs_merge_streams_by_time() {
    let mut out = LogBuffer::new();
    let mut err = LogBuffer::new();
    out.push(entry(1, LogStream::Stdout, "o1"));
    out.push(entry(3, LogStream::Stdout, "o3"));
    err.push(entry(2, LogStream::Stderr, "e2"));
    err.push(entry(3, LogStream::Stderr, "e3"));
    let all: Vec<String> = recent_logs(&out, &err, 100).into_iter().map(|e| e.line).collect();
    assert_eq!(all, vec!["o1", "e2", "o3", "e3"]);
    let last2: Vec<String> = recent_logs(&out, &err, 2).into_iter().map(|e| e.line).collect();
    assert_eq!(last2, vec!["o3", "e3"]);
    assert!(recent_logs(&LogBuffer::new(), &LogBuffer::new(), 10).is_empty());
    assert!(recent_logs(&out, &err, 0).is_empty());
}

#[test]
fn line_endings_are_dropped() {
    assert_eq!(trim_line_ending("hello\n"), "hello");
    assert_eq!(trim_line_ending("hello\r\n"), "hello");
    assert_eq!(trim_line_ending("hello\n\n"), "hello");
    assert_eq!(trim_line_ending("a\r\r"), "a");
    assert_eq!(trim_line_ending("a\n\r"), "a\n");
    assert_eq!(trim_line_ending(""), "");
}

#[test]
fn rotation_settings() {
    assert_eq!(rotation_limit(None), 0);
    assert_eq!(rotation_limit(Some(10)), 10 * 1024 * 1024);
    assert!(!rotation_check_due(0, 256));
    assert!(rotation_check_due(1, 256));
    assert!(rotation_check_due(1, 512));
    assert!(!rotation_check_due(1, 255));
}

#[test]
fn rotated_copies_are_numbered() {
    assert_eq!(rotated_file_name("web", Some("log"), 2), "web.2.log");
    assert_eq!(rotated_file_name("web", None, 1), "web.1");
    assert_eq!(rotated_log_path("logs/web.log", 3), "logs/web.3.log");
    assert_eq!(rotated_log_path("out", 1), "out.1");
    assert_eq!(rotation_steps(), vec![(5, 6), (4, 5), (3, 4), (2, 3), (1, 2), (0, 1)]);
}

#[test]
fn rotated_copies_keep_the_last_extension() {
    assert_eq!(rotated_log_path("app.tar.gz", 2), "app.tar.2.gz");
    assert_eq!(rotated_log_path("logs/.hidden", 1), "logs/.hidden.1");
    assert!(rotated_log_path("var/log/svc.out", 4).ends_with("svc.4.out"));
}
