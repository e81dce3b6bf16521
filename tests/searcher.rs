use mux::history::{HistoryEntry, Shell};
use mux::searcher::{HistorySearcher, SyncResult};
use mux::store::CommandStore;

fn fresh() -> HistorySearcher {
    HistorySearcher::new(CommandStore::new())
}

#[test]
fn test_create_searcher() {
    let searcher = fresh();
    assert_eq!(searcher.len(), 0);
}

#[test]
fn test_insert_and_search() {
    let mut searcher = fresh();
    let entry = HistoryEntry { command: "cargo build".to_string(), timestamp: Some(1234567890) };
    searcher.insert_or_update_command(&entry, "Bash").unwrap();
    let results = searcher.search("build", 10);
    assert_eq!(results.len(), 1);
    assert_eq!(results[0].command, "cargo build");
}

#[test]
fn test_record_usage() {
    let mut searcher = fresh();
    let entry = HistoryEntry { command: "cargo test".to_string(), timestamp: Some(1234567890) };
    searcher.insert_or_update_command(&entry, "Zsh").unwrap();
    searcher.record_usage("cargo test", 1700000000).unwrap();
    searcher.record_usage("cargo test", 1700000001).unwrap();
    let freq = searcher
        .get_all_commands()
        .iter()
        .find(|e| e.command == "cargo test")
        .map(|e| e.frequency)
        .unwrap();
    assert_eq!(freq, 3);
}

#[test]
fn usage_moves_a_command_forward() {
    let mut s = fresh();
    s.record_usage("a", 1).unwrap();
    s.record_usage("b", 2).unwrap();
    s.record_usage("b", 3).unwrap();
    let all = s.get_all_commands();
    assert_eq!(all[0].command, "b");
    assert_eq!(all[0].frequency, 2);
    assert_eq!(all[1].command, "a");
    assert_eq!(s.most_recent_command().unwrap().command, "b");
}

#[test]
fn empty_query_lists_by_frequency() {
    let mut s = fresh();
    s.record_usage("x", 1).unwrap();
    s.record_usage("y", 1).unwrap();
    s.record_usage("y", 1).unwrap();
    let r = s.search("", 1);
    assert_eq!(r.len(), 1);
    assert_eq!(r[0].command, "y");
    assert_eq!(r[0].score, 2);
    assert!(s.search("zzz", 10).is_empty());
}

#[test]
fn sync_through_the_searcher() {
    let mut s = fresh();
    let h = vec![HistoryEntry { command: "ls".to_string(), timestamp: None }];
    assert_eq!(s.sync_from_shell_history(Shell::Bash, &h, 10).unwrap(), 1);
    assert_eq!(s.store().cursor("Bash"), (10, 1));
    assert_eq!(s.len(), 1);
}

#[test]
fn sync_results_add_up() {
    let mut r = SyncResult::new();
    r.record(Shell::Zsh, Ok(3));
    r.record(Shell::Bash, Err("no access".to_string()));
    r.record(Shell::Fish, Ok(2));
    assert_eq!(r.total_synced, 5);
    assert_eq!(r.warnings, vec!["Failed to sync Bash history: no access"]);
}

#[test]
fn usage_moves_past_lower_counts_only() {
    let mut s = fresh();
    s.record_usage("a", 1).unwrap();
    s.record_usage("a", 2).unwrap();
    s.record_usage("b", 3).unwrap();
    s.record_usage("c", 4).unwrap();
    s.record_usage("c", 5).unwrap();
    let order: Vec<String> = s.get_all_commands().iter().map(|c| c.command.clone()).collect();
    assert_eq!(order, vec!["a", "c", "b"]);
}

#[test]
fn reload_orders_ties_by_last_use() {
    let mut s = fresh();
    let h = vec![
        HistoryEntry { command: "x".to_string(), timestamp: Some(5) },
        HistoryEntry { command: "y".to_string(), timestamp: Some(9) },
        HistoryEntry { command: "z".to_string(), timestamp: None },
        HistoryEntry { command: "x".to_string(), timestamp: Some(6) },
    ];
    s.sync_from_shell_history(Shell::Zsh, &h, 10).unwrap();
    let order: Vec<String> = s.get_all_commands().iter().map(|c| c.command.clone()).collect();
    assert_eq!(order, vec!["x", "y", "z"]);
}

#[test]
fn overlong_query_matches_nothing() {
    let mut s = fresh();
    let long = "a".repeat(5000);
    s.record_usage(&format!("x{}", long), 1).unwrap();
    assert!(s.search(&long, 10).is_empty());
    assert_eq!(s.search(&long[..10], 10).len(), 1);
}
