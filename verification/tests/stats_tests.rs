use redis_tls_proxy::stats::Stats;

fn count_of(snapshot: &[(String, u64)], key: &str) -> u64 {
    for e in snapshot {
        if e.0 == key {
            return e.1;
        }
    }
    0
}

#[test]
fn fresh_stats_are_empty() {
    let stats = Stats::new();
    assert_eq!(stats.total(), 0);
    assert!(stats.command_counts().is_empty());
}

#[test]
fn recording_uppercases_the_key() {
    let mut stats = Stats::new();
    stats.record_command("ping");
    let snapshot = stats.command_counts();
    assert_eq!(snapshot.len(), 1);
    assert_eq!(snapshot[0].0, "PING");
    assert_eq!(snapshot[0].1, 1);
}

#[test]
fn case_variants_coalesce_under_one_key() {
    let mut stats = Stats::new();
    stats.record_command("get");
    stats.record_command("GET");
    stats.record_command("Get");
    assert_eq!(stats.total(), 3);
    let snapshot = stats.command_counts();
    assert_eq!(snapshot.len(), 1);
    assert_eq!(count_of(&snapshot, "GET"), 3);
}

#[test]
fn distinct_commands_get_distinct_slots() {
    let mut stats = Stats::new();
    stats.record_command("GET");
    stats.record_command("SET");
    stats.record_command("get");
    assert_eq!(stats.total(), 3);
    let snapshot = stats.command_counts();
    assert_eq!(snapshot.len(), 2);
    assert_eq!(count_of(&snapshot, "GET"), 2);
    assert_eq!(count_of(&snapshot, "SET"), 1);
}

#[test]
fn sorted_snapshot_is_ordered_by_descending_count() {
    let mut stats = Stats::new();
    stats.record_command("GET");
    stats.record_command("SET");
    stats.record_command("GET");
    stats.record_command("DEL");
    stats.record_command("GET");
    stats.record_command("SET");
    let sorted = stats.sorted_command_counts();
    assert_eq!(sorted.len(), 3);
    assert_eq!(sorted[0], ("GET".to_string(), 3));
    assert_eq!(sorted[1], ("SET".to_string(), 2));
    assert_eq!(sorted[2], ("DEL".to_string(), 1));
}

#[test]
fn snapshot_is_a_copy_not_a_drain() {
    let mut stats = Stats::new();
    stats.record_command("DEL");
    let first = stats.command_counts();
    let second = stats.command_counts();
    assert_eq!(first.len(), 1);
    assert_eq!(second.len(), 1);
    assert_eq!(stats.total(), 1);
}
