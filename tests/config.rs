use mux::config::Config;
use mux::paths::{config_home, get_config_path, get_db_path, get_log_dir, get_state_dir, state_home};

#[test]
fn test_defaults() {
    let config = Config::default();
    assert_eq!(config.runner.max_concurrent, 64);
    assert_eq!(config.output.max_lines, 10_000);
    assert_eq!(config.output.box_padding_horizontal, 1);
    assert_eq!(config.output.box_padding_vertical, 0);
    assert_eq!(config.logging.max_file_size_mb, 10);
    assert_eq!(config.logging.max_archives, 5);
}

#[test]
fn xdg_paths() {
    assert_eq!(state_home(Some("/s"), Some("/h")).unwrap(), "/s");
    assert_eq!(state_home(None, Some("/h")).unwrap(), "/h/.local/state");
    assert!(state_home(None, None).is_none());
    assert_eq!(config_home(None, Some("/h")).unwrap(), "/h/.config");
    assert_eq!(get_state_dir("/s"), "/s/mux");
    assert_eq!(get_db_path("/s"), "/s/mux/history.db");
    assert_eq!(get_log_dir("/s/"), "/s/mux/logs");
    assert_eq!(get_config_path("/c"), "/c/mux/config.toml");
}
