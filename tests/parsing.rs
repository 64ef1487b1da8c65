use log_tail::entry::{LogKind, LogType};
use log_tail::parser::{parse_access_log_line, parse_error_log_line, parse_log_line, parse_request};
use log_tail::timestamp::{format_stamp, format_timestamp, Stamp};

#[test]
fn access_line_example() {
    let e = parse_access_log_line(
        "127.0.0.1 - - [10/Oct/2023:13:55:36 -0700] \"GET /index.html HTTP/1.1\" 200 1024",
    );
    assert_eq!(e.ip_address, "127.0.0.1");
    assert_eq!(e.method, "GET");
    assert_eq!(e.path, "/index.html");
    assert_eq!(e.http_version, "HTTP/1.1");
    assert_eq!(e.status, "200");
    assert_eq!(e.response_size, "1024");
    assert_eq!(e.timestamp, "Tue Oct 10 01:55:36 PM 2023");
}

#[test]
fn error_line_example() {
    let e = parse_error_log_line(
        "[Wed Oct 11 14:32:52.123456 2023] [php:error] [pid 123] [client 1.2.3.4] Something broke",
    );
    assert_eq!(e.level, "error");
    assert_eq!(e.message, "Something broke");
    assert_eq!(e.timestamp, "Wed Oct 11 02:32:52 PM 2023");
}

#[test]
fn unmatched_line_is_unknown_for_both_kinds() {
    let line = "this line matches neither pattern";
    let a = parse_access_log_line(line);
    for f in [
        &a.ip_address,
        &a.timestamp,
        &a.method,
        &a.path,
        &a.http_version,
        &a.status,
        &a.response_size,
    ] {
        assert_eq!(f, "Unknown");
    }
    let e = parse_error_log_line(line);
    assert_eq!(e.timestamp, "Unknown");
    assert_eq!(e.level, "Unknown");
    assert_eq!(e.message, line);
}

#[test]
fn empty_line_is_unknown() {
    let a = parse_access_log_line("");
    assert_eq!(a.ip_address, "Unknown");
    assert_eq!(a.response_size, "Unknown");
    let e = parse_error_log_line("");
    assert_eq!(e.level, "Unknown");
    assert_eq!(e.message, "");
}

#[test]
fn access_line_with_non_numeric_status_is_unknown() {
    let a = parse_access_log_line("1.2.3.4 - - [x] \"GET / HTTP/1.0\" OK 12");
    assert_eq!(a.status, "Unknown");
    assert_eq!(a.ip_address, "Unknown");
}

#[test]
fn access_line_with_odd_request_is_unknown() {
    let a = parse_access_log_line("1.2.3.4 - - [10/Oct/2023:13:55:36 -0700] \"GET\" 200 5");
    for f in [
        &a.ip_address,
        &a.timestamp,
        &a.method,
        &a.path,
        &a.http_version,
        &a.status,
        &a.response_size,
    ] {
        assert_eq!(f, "Unknown");
    }
}

#[test]
fn access_line_ignores_what_follows_the_size() {
    let base = "10.0.0.1 - - [10/Oct/2023:13:55:36 -0700] \"GET /a HTTP/1.1\" 404 17";
    for line in [
        format!("{}\n", base),
        format!("{}\r\n", base),
        format!("{} \"-\" \"curl/8.0\"", base),
    ] {
        let a = parse_access_log_line(&line);
        assert_eq!(a.ip_address, "10.0.0.1");
        assert_eq!(a.path, "/a");
        assert_eq!(a.status, "404");
        assert_eq!(a.response_size, "17");
    }
}

#[test]
fn access_line_after_leading_text() {
    let a = parse_access_log_line(
        "host: 10.0.0.2 - - [10/Oct/2023:13:55:36 -0700] \"GET /b HTTP/1.0\" 200 3",
    );
    assert_eq!(a.ip_address, "10.0.0.2");
    assert_eq!(a.method, "GET");
}

#[test]
fn access_ip_ending_in_unicode_space_is_unknown() {
    let a = parse_access_log_line("1.2.3.4\u{2003} - - [x] \"GET / HTTP/1.1\" 200 5");
    assert_eq!(a.ip_address, "Unknown");
}

#[test]
fn request_words_split_on_any_whitespace() {
    let (m, p, v) = parse_request("  GET \t /x   HTTP/1.1 ");
    assert_eq!((m.as_str(), p.as_str(), v.as_str()), ("GET", "/x", "HTTP/1.1"));
    let (m, p, v) = parse_request("GET\u{3000}/y HTTP/2");
    assert_eq!((m.as_str(), p.as_str(), v.as_str()), ("GET", "/y", "HTTP/2"));
    let (m, _, _) = parse_request("a b c d");
    assert_eq!(m, "");
}

#[test]
fn error_message_stops_at_line_terminator() {
    let e = parse_error_log_line("[t] [php:warn] [a] [b] first part\nsecond");
    assert_eq!(e.message, "first part");
    assert_eq!(e.level, "warn");
    let e = parse_error_log_line("[t] [l] [a] [b] done\n");
    assert_eq!(e.message, "done");
}

#[test]
fn level_without_marker_is_kept() {
    let e = parse_error_log_line("[bad time] [notice] [a] [b] hello world");
    assert_eq!(e.level, "notice");
    assert_eq!(e.message, "hello world");
    assert_eq!(e.timestamp, "Invalid Timestamp");
}

#[test]
fn error_line_missing_a_bracket_is_unknown() {
    let line = "[Wed Oct 11 14:32:52 2023] [error] [pid 1] message";
    let e = parse_error_log_line(line);
    assert_eq!(e.level, "Unknown");
    assert_eq!(e.message, line);
}

#[test]
fn kind_follows_file_name() {
    assert_eq!(LogKind::from_file_name("site_access.log"), LogKind::Access);
    assert_eq!(LogKind::from_file_name("error.log"), LogKind::Error);
    assert_eq!(LogKind::from_file_name(""), LogKind::Error);
    match parse_log_line("[t] [l] [a] [b] m", "php_error.log") {
        LogType::ErrorLog(e) => assert_eq!(e.message, "m"),
        LogType::AccessLog(_) => panic!("expected an error entry"),
    }
    match parse_log_line("junk", "access.log") {
        LogType::AccessLog(e) => assert_eq!(e.ip_address, "Unknown"),
        LogType::ErrorLog(_) => panic!("expected an access entry"),
    }
}

#[test]
fn same_instant_in_both_formats_renders_alike() {
    let a = format_timestamp("Tue Oct 10 13:55:36 2023");
    let b = format_timestamp("10/Oct/2023:13:55:36 +0000");
    assert_eq!(a, "Tue Oct 10 01:55:36 PM 2023");
    assert_eq!(a, b);
}

#[test]
fn unknown_timestamp_format_is_invalid() {
    assert_eq!(format_timestamp("2023-10-10T13:55:36Z"), "Invalid Timestamp");
    assert_eq!(format_timestamp(""), "Invalid Timestamp");
}

#[test]
fn stamp_rendering() {
    let d = Stamp { year: 2024, month: 2, day: 29, hour: 0, minute: 5, second: 9, nanosecond: 0 };
    assert_eq!(format_stamp(Some(d)), "Thu Feb 29 12:05:09 AM 2024");
    let bad = Stamp { year: 2023, month: 2, day: 29, hour: 0, minute: 0, second: 0, nanosecond: 0 };
    assert_eq!(format_stamp(Some(bad)), "Invalid Timestamp");
    assert_eq!(format_stamp(None), "Invalid Timestamp");
}

#[test]
fn newline_inside_brackets_is_unknown() {
    let a = parse_access_log_line("1.2.3.4 - - [a\nb] \"GET / HTTP/1.1\" 200 5");
    assert_eq!(a.ip_address, "Unknown");
    assert_eq!(a.status, "Unknown");
    let a = parse_access_log_line("1.2.3.4 - - [t] \"GET /\nx HTTP/1.1\" 200 5");
    assert_eq!(a.response_size, "Unknown");
    let line = "[a\nb] [c] [d] [e] f";
    let e = parse_error_log_line(line);
    assert_eq!(e.level, "Unknown");
    assert_eq!(e.message, line);
}
