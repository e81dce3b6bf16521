use mux::history::HistoryEntry;
use mux::store::{CommandRow, CommandStore, StoreError, SyncState};

fn e(c: &str, t: Option<i64>) -> HistoryEntry {
    HistoryEntry { command: c.to_string(), timestamp: t }
}

fn freq(s: &CommandStore, c: &str) -> u32 {
    s.rows().iter().find(|r| r.command == c).map(|r| r.frequency).unwrap()
}

#[test]
fn sync_twice_adds_no_rows() {
    let mut s = CommandStore::new();
    let h = vec![e("ls", None), e("ls", None), e("pwd", Some(5))];
    assert_eq!(s.sync("Bash", &h, 100).unwrap(), 3);
    assert_eq!(s.len(), 2);
    assert_eq!(freq(&s, "ls"), 2);
    assert_eq!(s.sync("Bash", &h, 200).unwrap(), 0);
    assert_eq!(s.len(), 2);
    assert_eq!(freq(&s, "ls"), 2);
}

#[test]
fn sync_reads_only_the_new_tail() {
    let mut s = CommandStore::new();
    s.sync("Zsh", &vec![e("a", None)], 100).unwrap();
    let n = s.sync("Zsh", &vec![e("a", None), e("b", None), e("c", Some(101))], 150).unwrap();
    assert_eq!(n, 2);
    assert_eq!(s.cursor("Zsh"), (150, 3));
    assert_eq!(s.cursor("Fish"), (0, 0));
}

#[test]
fn usage_survives_write_back_and_reopen() {
    let mut s = CommandStore::new();
    s.record_usage("make", 1).unwrap();
    s.record_usage("make", 2).unwrap();
    let back = CommandStore::from_rows(s.rows().clone(), s.sync_states().clone()).unwrap();
    assert_eq!(freq(&back, "make"), 2);
    assert_eq!(back.rows()[0].last_used, Some(2));
    assert_eq!(back.rows()[0].shell_source, "mux");
}

#[test]
fn rebuild_gives_the_same_rows() {
    let h = vec![e("a", Some(1)), e("b", None), e("a", Some(3))];
    let mut one = CommandStore::new();
    one.sync("Fish", &h, 10).unwrap();
    let mut two = CommandStore::new();
    two.sync("Fish", &h, 99).unwrap();
    let rows = |s: &CommandStore| -> Vec<(String, u32)> {
        s.rows().iter().map(|r| (r.command.clone(), r.frequency)).collect()
    };
    assert_eq!(rows(&one), rows(&two));
    assert_eq!(rows(&one), vec![("a".to_string(), 2), ("b".to_string(), 1)]);
}

#[test]
fn reopen_rejects_duplicates() {
    let row = |id: i64, c: &str| CommandRow {
        id,
        command: c.to_string(),
        frequency: 1,
        last_used: None,
        shell_source: "Bash".to_string(),
    };
    assert!(CommandStore::from_rows(vec![row(1, "a"), row(2, "a")], vec![]).is_none());
    let st = |sh: &str| SyncState { shell_source: sh.to_string(), last_sync_timestamp: 0, last_line_count: 0 };
    assert!(CommandStore::from_rows(vec![row(1, "a")], vec![st("Bash"), st("Bash")]).is_none());
    let ok = CommandStore::from_rows(vec![row(4, "a")], vec![st("Bash")]).unwrap();
    assert_eq!(ok.len(), 1);
}

#[test]
fn ids_run_out() {
    let row = CommandRow {
        id: i64::MAX - 1,
        command: "a".to_string(),
        frequency: 1,
        last_used: None,
        shell_source: "Bash".to_string(),
    };
    let mut s = CommandStore::from_rows(vec![row], vec![]).unwrap();
    assert_eq!(s.record_usage("b", 1), Err(StoreError::IdsExhausted));
    assert_eq!(s.record_usage("a", 1), Ok(()));
    assert_eq!(s.sync("Bash", &vec![e("c", None)], 5), Err(StoreError::IdsExhausted));
    assert_eq!(s.len(), 1);
}

#[test]
fn repeated_uses_add_up_and_survive_reopen() {
    let mut s = CommandStore::new();
    s.sync("Bash", &vec![e("make", None), e("ls", None)], 10).unwrap();
    for t in 0..4 {
        s.record_usage("make", 20 + t).unwrap();
    }
    let back = CommandStore::from_rows(s.rows().clone(), s.sync_states().clone()).unwrap();
    assert_eq!(freq(&back, "make"), 5);
    assert_eq!(freq(&back, "ls"), 1);
}
