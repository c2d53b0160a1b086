use redis_tls_proxy::resp::find_crlf;
use redis_tls_proxy::resp::parse_commands;
use redis_tls_proxy::resp::parse_inline_command;
use redis_tls_proxy::resp::parse_integer;

#[test]
fn test_parse_simple_command() {
    let buf = b"*1\r\n$4\r\nPING\r\n";
    let (commands, _) = parse_commands(buf);
    assert_eq!(commands, vec!["PING"]);
}

#[test]
fn test_parse_command_with_args() {
    let buf = b"*3\r\n$3\r\nSET\r\n$3\r\nkey\r\n$5\r\nvalue\r\n";
    let (commands, _) = parse_commands(buf);
    assert_eq!(commands, vec!["SET"]);
}

#[test]
fn test_parse_inline_command() {
    let buf = b"PING\r\n";
    let (commands, _) = parse_commands(buf);
    assert_eq!(commands, vec!["PING"]);
}

#[test]
fn test_parse_multiple_commands() {
    let buf = b"*1\r\n$4\r\nPING\r\n*1\r\n$4\r\nPING\r\n";
    let (commands, _) = parse_commands(buf);
    assert_eq!(commands, vec!["PING", "PING"]);
}

#[test]
fn consumed_covers_whole_complete_frame() {
    let buf = b"*1\r\n$4\r\nPING\r\n";
    let (commands, consumed) = parse_commands(buf);
    assert_eq!(commands, vec!["PING"]);
    assert_eq!(consumed, buf.len());
}

#[test]
fn inline_command_name_stops_at_space() {
    let (commands, consumed) = parse_commands(b"SET key value\r\n");
    assert_eq!(commands, vec!["SET"]);
    assert_eq!(consumed, 15);
}

#[test]
fn trailing_partial_frame_keeps_earlier_names() {
    let buf = b"*1\r\n$4\r\nPING\r\n*1\r\n$10\r\nSHORT";
    let (commands, consumed) = parse_commands(buf);
    assert_eq!(commands, vec!["PING"]);
    // The scan stops inside the partial frame, after its headers.
    assert_eq!(consumed, 23);
}

#[test]
fn incomplete_inline_yields_nothing() {
    let (commands, consumed) = parse_commands(b"PING");
    assert!(commands.is_empty());
    assert_eq!(consumed, 0);
}

#[test]
fn empty_line_stops_the_scan() {
    let (commands, consumed) = parse_commands(b"\r\nPING\r\n");
    assert!(commands.is_empty());
    assert_eq!(consumed, 0);
}

#[test]
fn null_bulk_string_is_skipped_silently() {
    let (commands, consumed) = parse_commands(b"*1\r\n$-1\r\n");
    assert!(commands.is_empty());
    assert_eq!(consumed, 9);
}

#[test]
fn null_first_array_skips_its_elements() {
    let (commands, consumed) = parse_commands(b"*2\r\n$-1\r\n$4\r\nPING\r\n");
    assert!(commands.is_empty());
    assert_eq!(consumed, 19);
}

#[test]
fn null_first_array_with_incomplete_element_stalls() {
    let (commands, consumed) = parse_commands(b"*2\r\n$-1\r\n$4\r\nPI");
    assert!(commands.is_empty());
    assert_eq!(consumed, 0);
}

#[test]
fn command_after_null_first_array_is_still_found() {
    let (commands, consumed) = parse_commands(b"*2\r\n$-1\r\n+OK\r\n*1\r\n$4\r\nPING\r\n");
    assert_eq!(commands, vec!["PING"]);
    assert_eq!(consumed, 28);
}

#[test]
fn zero_count_array_is_passed_over() {
    let (commands, consumed) = parse_commands(b"*0\r\n*1\r\n$4\r\nPING\r\n");
    assert_eq!(commands, vec!["PING"]);
    assert_eq!(consumed, 18);
}

#[test]
fn simple_string_argument_is_skipped() {
    let (commands, _) = parse_commands(b"*2\r\n$4\r\nECHO\r\n+OK\r\n");
    assert_eq!(commands, vec!["ECHO"]);
}

#[test]
fn integer_argument_is_skipped() {
    let (commands, _) = parse_commands(b"*2\r\n$6\r\nEXPIRE\r\n:100\r\n");
    assert_eq!(commands, vec!["EXPIRE"]);
}

#[test]
fn stall_inside_arguments_reports_zero_consumed() {
    let (commands, consumed) = parse_commands(b"*2\r\n$3\r\nGET\r\n$5\r\nab");
    assert_eq!(commands, vec!["GET"]);
    assert_eq!(consumed, 0);
}

#[test]
fn malformed_count_stops_the_scan() {
    let (commands, consumed) = parse_commands(b"*abc\r\n$4\r\nPING\r\n");
    assert!(commands.is_empty());
    assert_eq!(consumed, 0);
}

#[test]
fn parse_integer_reads_decimal_fields() {
    assert_eq!(parse_integer(b"123\r\n"), Some((123, 5)));
    assert_eq!(parse_integer(b"-5\r\n"), Some((-5, 4)));
    assert_eq!(parse_integer(b"+7\r\nrest"), Some((7, 4)));
    assert_eq!(parse_integer(b"0\r\n"), Some((0, 3)));
}

#[test]
fn parse_integer_rejects_what_is_not_a_number() {
    assert_eq!(parse_integer(b"12x\r\n"), None);
    assert_eq!(parse_integer(b"\r\n"), None);
    assert_eq!(parse_integer(b"-\r\n"), None);
    assert_eq!(parse_integer(b"12"), None);
}

#[test]
fn parse_integer_respects_the_64_bit_bounds() {
    assert_eq!(
        parse_integer(b"9223372036854775807\r\n"),
        Some((i64::MAX, 21))
    );
    assert_eq!(
        parse_integer(b"-9223372036854775808\r\n"),
        Some((i64::MIN, 22))
    );
    assert_eq!(parse_integer(b"9223372036854775808\r\n"), None);
    assert_eq!(parse_integer(b"99999999999999999999999\r\n"), None);
}

#[test]
fn parse_inline_command_splits_at_the_first_space() {
    let r = parse_inline_command(b"GET mykey\r\n").unwrap();
    assert_eq!(r.0, "GET");
    assert_eq!(r.1, 11);
    assert_eq!(parse_inline_command(b" PING\r\n"), None);
    assert_eq!(parse_inline_command(b"PING"), None);
}

#[test]
fn appending_bytes_keeps_already_extracted_commands() {
    let (first, _) = parse_commands(b"*1\r\n$4\r\nPING\r\n*1\r\n$3\r\nGE");
    let (full, _) = parse_commands(b"*1\r\n$4\r\nPING\r\n*1\r\n$3\r\nGET\r\n");
    assert_eq!(first, vec!["PING"]);
    assert_eq!(full, vec!["PING", "GET"]);
    assert_eq!(full[..first.len()], first[..]);
}

#[test]
fn find_crlf_returns_the_first_terminator() {
    assert_eq!(find_crlf(b"ab\r\ncd\r\n"), Some(2));
    assert_eq!(find_crlf(b"abcd"), None);
    assert_eq!(find_crlf(b"\r\n"), Some(0));
}
