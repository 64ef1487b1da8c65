use log_tail::cursor::Cursor;
use log_tail::entry::LogType;
use log_tail::tail::{
    frame_event, is_log_file_name, next_read_limit, should_stop, Next, Phase, Tailer, READ_LIMIT,
};

#[test]
fn cursor_keeps_unterminated_tail() {
    let mut c = Cursor::new();
    let lines = c.read_batch(b"one\ntwo\nthr", 10);
    assert_eq!(lines, vec![b"one".to_vec(), b"two".to_vec()]);
    assert_eq!(c.offset(), 8);
    let lines = c.read_batch(b"thr", 10);
    assert!(lines.is_empty());
    assert_eq!(c.offset(), 8);
    let lines = c.read_batch(b"three\n", 10);
    assert_eq!(lines, vec![b"three".to_vec()]);
    assert_eq!(c.offset(), 14);
}

#[test]
fn cursor_respects_batch_bound() {
    let mut c = Cursor::new();
    let lines = c.read_batch(b"a\nb\nc\n", 2);
    assert_eq!(lines.len(), 2);
    assert_eq!(c.offset(), 4);
    let lines = c.read_batch(b"c\n", 2);
    assert_eq!(lines, vec![b"c".to_vec()]);
    assert_eq!(c.offset(), 6);
}

#[test]
fn cursor_empty_lines_count() {
    let mut c = Cursor::new();
    let lines = c.read_batch(b"\n\n", 5);
    assert_eq!(lines, vec![Vec::<u8>::new(), Vec::new()]);
    assert_eq!(c.offset(), 2);
    assert!(c.read_batch(b"", 5).is_empty());
}

#[test]
fn entries_equal_completed_lines_across_writes() {
    let mut file: Vec<u8> = Vec::new();
    let mut t = Tailer::new("error.log");
    let mut seen = 0usize;
    for write in ["[a] [b] [c] [d] m1\n[a] [b", "] [c] [d] m2\n", "partial"] {
        file.extend_from_slice(write.as_bytes());
        let avail = &file[t.offset() as usize..];
        let (entries, _) = t.step(avail);
        seen += entries.len();
    }
    assert_eq!(seen, 2);
    assert_eq!(t.offset() as usize, file.len() - "partial".len());
}

#[test]
fn tailer_phases() {
    let mut t = Tailer::new("access.log");
    assert_eq!(t.phase(), Phase::CatchUp);
    let text = "1.1.1.1 - - [x] \"GET / HTTP/1.1\" 200 5\n";
    let (entries, next) = t.step(text.as_bytes());
    assert_eq!(entries.len(), 1);
    assert_eq!(next, Next::Pause);
    match &entries[0] {
        LogType::AccessLog(e) => assert_eq!(e.ip_address, "1.1.1.1"),
        LogType::ErrorLog(_) => panic!("expected an access entry"),
    }
    let (entries, next) = t.step(b"");
    assert!(entries.is_empty());
    assert_eq!(next, Next::Wait);
    assert_eq!(t.phase(), Phase::Live);
    let (_, next) = t.step(text.as_bytes());
    assert_eq!(next, Next::Wait);
}

#[test]
fn live_batches_are_smaller() {
    let mut t = Tailer::new("error.log");
    let many = "x\n".repeat(120);
    let (entries, next) = t.step(many.as_bytes());
    assert_eq!(entries.len(), 100);
    assert_eq!(next, Next::Pause);
    let (entries, _) = t.step(&many.as_bytes()[200..]);
    assert_eq!(entries.len(), 20);
    let (entries, _) = t.step(b"");
    assert!(entries.is_empty());
    assert_eq!(t.phase(), Phase::Live);
    let (entries, _) = t.step(many.as_bytes());
    assert_eq!(entries.len(), 50);
}

#[test]
fn invalid_utf8_is_replaced() {
    let mut t = Tailer::new("error.log");
    let (entries, _) = t.step(b"ab\xffcd\n");
    match &entries[0] {
        LogType::ErrorLog(e) => assert_eq!(e.message, "ab\u{FFFD}cd"),
        LogType::AccessLog(_) => panic!("expected an error entry"),
    }
}

#[test]
fn frames_events() {
    assert_eq!(frame_event("{\"a\":1}"), "data: {\"a\":1}\n\n");
    assert_eq!(frame_event(""), "data: \n\n");
}

#[test]
fn log_file_names() {
    assert!(is_log_file_name("access.log"));
    assert!(is_log_file_name("a.log"));
    assert!(!is_log_file_name(".log"));
    assert!(!is_log_file_name("notes.txt"));
    assert!(!is_log_file_name("error.log.1"));
    assert!(!is_log_file_name(""));
}

#[test]
fn read_limit_grows_only_for_long_lines() {
    assert_eq!(next_read_limit(READ_LIMIT, READ_LIMIT as usize, 0), 2 * READ_LIMIT);
    assert_eq!(next_read_limit(4 * READ_LIMIT, 10, 0), READ_LIMIT);
    assert_eq!(next_read_limit(READ_LIMIT, READ_LIMIT as usize, 3), READ_LIMIT);
    assert_eq!(next_read_limit(u64::MAX, usize::MAX, 0) >= READ_LIMIT, true);
}

#[test]
fn stops_only_when_live_and_unsubscribed() {
    assert!(should_stop(Phase::Live, 0));
    assert!(!should_stop(Phase::Live, 2));
    assert!(!should_stop(Phase::CatchUp, 0));
}
