use redis_tls_proxy::proxy::ProxyEngine;
use redis_tls_proxy::stats::Stats;

fn count_of(snapshot: &[(String, u64)], key: &str) -> u64 {
    for e in snapshot {
        if e.0 == key {
            return e.1;
        }
    }
    0
}

#[test]
fn ping_frame_is_recorded_and_forwarded() {
    let mut engine = ProxyEngine::new();
    let mut stats = Stats::new();
    let input = b"*1\r\n$4\r\nPING\r\n";
    let out = engine.on_client_read(input, &mut stats);
    assert_eq!(out, input.to_vec());
    assert_eq!(stats.total(), 1);
    assert_eq!(count_of(&stats.command_counts(), "PING"), 1);
}

#[test]
fn set_frame_records_one_command_and_forwards_all_bytes() {
    let mut engine = ProxyEngine::new();
    let mut stats = Stats::new();
    let input = b"*3\r\n$3\r\nSET\r\n$3\r\nkey\r\n$5\r\nvalue\r\n";
    let out = engine.on_client_read(input, &mut stats);
    assert_eq!(out, input.to_vec());
    assert_eq!(stats.total(), 1);
    assert_eq!(count_of(&stats.command_counts(), "SET"), 1);
}

#[test]
fn inline_ping_is_recorded() {
    let mut engine = ProxyEngine::new();
    let mut stats = Stats::new();
    let out = engine.on_client_read(b"PING\r\n", &mut stats);
    assert_eq!(out, b"PING\r\n".to_vec());
    assert_eq!(count_of(&stats.command_counts(), "PING"), 1);
}

#[test]
fn lowercase_commands_are_recorded_uppercased() {
    let mut engine = ProxyEngine::new();
    let mut stats = Stats::new();
    engine.on_client_read(b"*1\r\n$4\r\nping\r\n", &mut stats);
    assert_eq!(count_of(&stats.command_counts(), "PING"), 1);
}

#[test]
fn malformed_bytes_are_still_forwarded() {
    let mut engine = ProxyEngine::new();
    let mut stats = Stats::new();
    let input = b"*not a frame at all";
    let out = engine.on_client_read(input, &mut stats);
    assert_eq!(out, input.to_vec());
    assert_eq!(stats.total(), 0);
}

#[test]
fn upstream_bytes_pass_through_without_parsing() {
    let mut engine = ProxyEngine::new();
    let input = b"*1\r\n$4\r\nPONG\r\n";
    let out = engine.on_upstream_read(input);
    assert_eq!(out, input.to_vec());
}

#[test]
fn forwarding_reproduces_every_chunk_in_order() {
    let mut engine = ProxyEngine::new();
    let mut stats = Stats::new();
    let chunks: Vec<&[u8]> = vec![b"*1\r\n$4\r\nPI", b"NG\r\n", b"*1\r\n$3\r\nGET\r\n"];
    let mut forwarded = Vec::new();
    let mut received = Vec::new();
    for chunk in chunks {
        received.extend_from_slice(chunk);
        let out = engine.on_client_read(chunk, &mut stats);
        forwarded.extend_from_slice(&out);
    }
    assert_eq!(forwarded, received);
}

#[test]
fn both_directions_relay_independently() {
    let mut engine = ProxyEngine::new();
    let mut stats = Stats::new();
    let up = engine.on_client_read(b"*1\r\n$4\r\nPING\r\n", &mut stats);
    let down = engine.on_upstream_read(b"+PONG\r\n");
    assert_eq!(up, b"*1\r\n$4\r\nPING\r\n".to_vec());
    assert_eq!(down, b"+PONG\r\n".to_vec());
}
