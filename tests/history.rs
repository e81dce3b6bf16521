use mux::history::{HistoryEntry, HistoryReader, Shell};

fn read(shell: Shell, text: &str) -> Vec<HistoryEntry> {
    let reader = HistoryReader::with_path(shell, "history".to_string());
    reader.read_history(text.as_bytes())
}

#[test]
fn test_bash_history_simple() {
    let entries = read(Shell::Bash, "ls -la\ncd /tmp\necho hello\n");
    assert_eq!(entries.len(), 3);
    assert_eq!(entries[0].command, "ls -la");
    assert_eq!(entries[1].command, "cd /tmp");
    assert_eq!(entries[2].command, "echo hello");
}

#[test]
fn test_bash_history_with_timestamps() {
    let entries = read(Shell::Bash, "#1234567890\nls -la\n#1234567900\ncd /tmp\n");
    assert_eq!(entries.len(), 2);
    assert_eq!(entries[0].command, "ls -la");
    assert_eq!(entries[0].timestamp, Some(1234567890));
    assert_eq!(entries[1].command, "cd /tmp");
    assert_eq!(entries[1].timestamp, Some(1234567900));
}

#[test]
fn test_zsh_history_extended() {
    let entries = read(Shell::Zsh, ": 1234567890:0;ls -la\n: 1234567900:5;cd /tmp\n");
    assert_eq!(entries.len(), 2);
    assert_eq!(entries[0].command, "ls -la");
    assert_eq!(entries[0].timestamp, Some(1234567890));
    assert_eq!(entries[1].command, "cd /tmp");
    assert_eq!(entries[1].timestamp, Some(1234567900));
}

#[test]
fn test_zsh_history_non_extended() {
    let entries = read(Shell::Zsh, "ls -la\ncd /tmp\necho hello world\n");
    assert_eq!(entries.len(), 3);
    assert_eq!(entries[0].command, "ls -la");
    assert!(entries[0].timestamp.is_none());
    assert_eq!(entries[1].command, "cd /tmp");
    assert_eq!(entries[2].command, "echo hello world");
}

#[test]
fn test_zsh_history_multiline_extended() {
    let text = ": 1234567890:0;for f in *.txt; do\\\necho $f\\\ndone\n: 1234567900:0;ls -la\n";
    let entries = read(Shell::Zsh, text);
    assert_eq!(entries.len(), 2);
    assert_eq!(entries[0].command, "for f in *.txt; do\necho $f\ndone");
    assert_eq!(entries[0].timestamp, Some(1234567890));
    assert_eq!(entries[1].command, "ls -la");
    assert_eq!(entries[1].timestamp, Some(1234567900));
}

#[test]
fn test_zsh_history_multiline_non_extended() {
    let entries = read(Shell::Zsh, "for f in *.txt; do\\\necho $f\\\ndone\nls -la\n");
    assert_eq!(entries.len(), 2);
    assert_eq!(entries[0].command, "for f in *.txt; do\necho $f\ndone");
    assert!(entries[0].timestamp.is_none());
    assert_eq!(entries[1].command, "ls -la");
}

#[test]
fn test_zsh_history_mixed_format() {
    let text = "echo old command\ncd /var/log\n: 1234567890:0;ls -la\n: 1234567900:0;pwd\n";
    let entries = read(Shell::Zsh, text);
    assert_eq!(entries.len(), 4);
    assert_eq!(entries[0].command, "echo old command");
    assert!(entries[0].timestamp.is_none());
    assert_eq!(entries[1].command, "cd /var/log");
    assert!(entries[1].timestamp.is_none());
    assert_eq!(entries[2].command, "ls -la");
    assert_eq!(entries[2].timestamp, Some(1234567890));
    assert_eq!(entries[3].command, "pwd");
    assert_eq!(entries[3].timestamp, Some(1234567900));
}

#[test]
fn test_zsh_history_command_with_semicolon() {
    let entries = read(Shell::Zsh, ": 1234567890:0;echo a; echo b; echo c\n");
    assert_eq!(entries.len(), 1);
    assert_eq!(entries[0].command, "echo a; echo b; echo c");
    assert_eq!(entries[0].timestamp, Some(1234567890));
}

#[test]
fn test_fish_history() {
    let text = "- cmd: ls -la\n  when: 1234567890\n- cmd: cd /tmp\n  when: 1234567900\n";
    let entries = read(Shell::Fish, text);
    assert_eq!(entries.len(), 2);
    assert_eq!(entries[0].command, "ls -la");
    assert_eq!(entries[0].timestamp, Some(1234567890));
    assert_eq!(entries[1].command, "cd /tmp");
    assert_eq!(entries[1].timestamp, Some(1234567900));
}

#[test]
fn bash_marker_that_is_not_a_number_is_a_command() {
    let entries = read(Shell::Bash, "#not-a-number\nfoo\n");
    assert_eq!(entries.len(), 2);
    assert_eq!(entries[0].command, "#not-a-number");
    assert_eq!(entries[0].timestamp, None);
    assert_eq!(entries[1].command, "foo");
    assert_eq!(entries[1].timestamp, None);
}

#[test]
fn bash_marker_gives_its_timestamp_to_the_next_line_only() {
    let entries = read(Shell::Bash, "#1700000000\nls -la\necho hi\n");
    assert_eq!(entries.len(), 2);
    assert_eq!(entries[0].command, "ls -la");
    assert_eq!(entries[0].timestamp, Some(1700000000));
    assert_eq!(entries[1].command, "echo hi");
    assert_eq!(entries[1].timestamp, None);
}

#[test]
fn zsh_three_colons_is_a_plain_command() {
    let entries = read(Shell::Zsh, ": 1:2:3;ls\n");
    assert_eq!(entries.len(), 1);
    assert_eq!(entries[0].command, ": 1:2:3;ls");
    assert_eq!(entries[0].timestamp, None);
}

#[test]
fn zsh_multiline_scenario_with_small_timestamps() {
    let entries = read(Shell::Zsh, ": 1:0;for f in *.txt; do\\\necho $f\\\ndone\n: 2:0;ls\n");
    assert_eq!(entries.len(), 2);
    assert_eq!(entries[0].command, "for f in *.txt; do\necho $f\ndone");
    assert_eq!(entries[0].timestamp, Some(1));
    assert_eq!(entries[1].command, "ls");
    assert_eq!(entries[1].timestamp, Some(2));
}

#[test]
fn zsh_continuation_survives_resplitting() {
    let entries = read(Shell::Zsh, "a\\\nb\\\nc\nd\n");
    let pieces: Vec<&str> = entries[0].command.split('\n').collect();
    assert_eq!(pieces, vec!["a", "b", "c"]);
    assert_eq!(entries[1].command, "d");
}

#[test]
fn zsh_invalid_utf8_is_decoded_leniently() {
    let reader = HistoryReader::with_path(Shell::Zsh, "h".to_string());
    let entries = reader.read_history(b"ls \xff\n");
    assert_eq!(entries.len(), 1);
    assert_eq!(entries[0].command, "ls \u{FFFD}");
}

#[test]
fn zsh_extended_line_parser() {
    let e = HistoryReader::parse_zsh_extended_line(": 5:0;echo x").unwrap();
    assert_eq!(e.command, "echo x");
    assert_eq!(e.timestamp, Some(5));
    assert!(HistoryReader::parse_zsh_extended_line("echo x").is_none());
    assert!(HistoryReader::parse_zsh_extended_line(": x:0;echo").is_none());
}

#[test]
fn fish_timestamp_before_any_command_is_dropped() {
    let entries = read(Shell::Fish, "  when: 7\n- cmd: a\n- cmd: b\n  when: 9\nnoise\n");
    assert_eq!(entries.len(), 2);
    assert_eq!(entries[0].command, "a");
    assert_eq!(entries[0].timestamp, None);
    assert_eq!(entries[1].command, "b");
    assert_eq!(entries[1].timestamp, Some(9));
}

#[test]
fn missing_history_reads_as_empty() {
    assert!(read(Shell::Bash, "").is_empty());
    assert!(read(Shell::Zsh, "").is_empty());
    assert!(read(Shell::Fish, "").is_empty());
}

#[test]
fn reader_paths_under_home() {
    assert_eq!(HistoryReader::new(Shell::Bash, "/home/u").history_path(), "/home/u/.bash_history");
    assert_eq!(HistoryReader::new(Shell::Zsh, "/home/u/").history_path(), "/home/u/.zsh_history");
    assert_eq!(
        HistoryReader::new(Shell::Fish, "/h").history_path(),
        "/h/.local/share/fish/fish_history"
    );
}
