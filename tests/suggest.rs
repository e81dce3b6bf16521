use mux::searcher::{HistorySearcher, IndexedCommand};
use mux::store::CommandStore;
use mux::suggest::{parse_command, split_input, NextExpected, SuggestionEngine, SuggestionType};

fn create_arg_test_commands() -> Vec<IndexedCommand> {
    let c = |id: i64, command: &str, frequency: u32, last: i64| IndexedCommand {
        id,
        command: command.to_string(),
        frequency,
        last_used: Some(last),
    };
    vec![
        c(1, "cargo build --release", 10, 1000),
        c(2, "cargo build --target x86_64", 5, 2000),
        c(3, "cargo build --target wasm32", 3, 3000),
        c(4, "cargo test --run sample_run", 7, 4000),
        c(5, "cargo test --run integration_test", 4, 5000),
    ]
}

fn strs(s: &[&str]) -> Vec<String> {
    s.iter().map(|x| x.to_string()).collect()
}

fn empty_searcher() -> HistorySearcher {
    HistorySearcher::new(CommandStore::new())
}

#[test]
fn test_parse_command_simple_flag() {
    let parsed = parse_command("cargo build --release");
    assert_eq!(parsed.prefixes, vec!["cargo", "cargo build"]);
    assert_eq!(parsed.args.len(), 1);
    assert_eq!(parsed.args[0].name, "--release");
    assert_eq!(parsed.args[0].value, None);
}

#[test]
fn test_parse_command_key_value_space() {
    let parsed = parse_command("cargo build --target x86_64");
    assert_eq!(parsed.prefixes, vec!["cargo", "cargo build"]);
    assert_eq!(parsed.args.len(), 1);
    assert_eq!(parsed.args[0].name, "--target");
    assert_eq!(parsed.args[0].value, Some("x86_64".to_string()));
}

#[test]
fn test_parse_command_key_value_equals() {
    let parsed = parse_command("cargo build --target=wasm32");
    assert_eq!(parsed.args.len(), 1);
    assert_eq!(parsed.args[0].name, "--target");
    assert_eq!(parsed.args[0].value, Some("wasm32".to_string()));
}

#[test]
fn test_parse_command_mixed_args() {
    let parsed = parse_command("cargo test --release -j 4 --run sample_run");
    assert_eq!(parsed.prefixes, vec!["cargo", "cargo test"]);
    assert_eq!(parsed.args.len(), 3);
    assert_eq!(parsed.args[0].name, "--release");
    assert_eq!(parsed.args[0].value, None);
    assert_eq!(parsed.args[1].name, "-j");
    assert_eq!(parsed.args[1].value, Some("4".to_string()));
    assert_eq!(parsed.args[2].name, "--run");
    assert_eq!(parsed.args[2].value, Some("sample_run".to_string()));
}

#[test]
fn test_parse_command_bare_double_dash() {
    let parsed = parse_command("cargo test -- --ignored-flag");
    assert_eq!(parsed.prefixes, vec!["cargo", "cargo test"]);
    assert!(parsed.args.is_empty());
}

#[test]
fn test_parse_command_no_args() {
    let parsed = parse_command("ls");
    assert_eq!(parsed.prefixes, vec!["ls"]);
    assert!(parsed.args.is_empty());
}

#[test]
fn test_split_input_mid_word() {
    let (completed, partial) = split_input("cargo build --ta");
    assert_eq!(completed, vec!["cargo", "build"]);
    assert_eq!(partial, "--ta");
}

#[test]
fn test_split_input_trailing_space() {
    let (completed, partial) = split_input("cargo build ");
    assert_eq!(completed, vec!["cargo", "build"]);
    assert_eq!(partial, "");
}

#[test]
fn trailing_tab_ends_the_word() {
    let (completed, partial) = split_input("cargo build\t");
    assert_eq!(completed, vec!["cargo", "build"]);
    assert_eq!(partial, "");
}

#[test]
fn test_split_input_single_word() {
    let (completed, partial) = split_input("car");
    assert!(completed.is_empty());
    assert_eq!(partial, "car");
}

#[test]
fn test_split_input_empty() {
    let (completed, partial) = split_input("");
    assert!(completed.is_empty());
    assert_eq!(partial, "");
}

#[test]
fn test_arg_index_built() {
    let engine = SuggestionEngine::new(&create_arg_test_commands());
    assert!(engine.arg_count("cargo build", "--release") > 0);
    assert!(engine.arg_count("cargo build", "--target") > 0);
    assert!(engine.arg_count("cargo test", "--run") > 0);
}

#[test]
fn test_arg_value_index_built() {
    let engine = SuggestionEngine::new(&create_arg_test_commands());
    assert!(engine.arg_value_count("cargo build", "--target", "x86_64") > 0);
    assert!(engine.arg_value_count("cargo build", "--target", "wasm32") > 0);
    assert!(engine.global_value_count("--run", "sample_run") > 0);
    assert!(engine.global_value_count("--run", "integration_test") > 0);
}

#[test]
fn test_suggest_args_for_command() {
    let engine = SuggestionEngine::new(&create_arg_test_commands());
    let prefixes = strs(&["cargo", "cargo build"]);
    let suggestions = engine.suggest_args(&prefixes, "--", &[], 10);
    assert!(!suggestions.is_empty());
    assert!(suggestions.iter().any(|s| s.text == "--release" && s.suggestion_type == SuggestionType::Argument));
    assert!(suggestions.iter().any(|s| s.text == "--target" && s.suggestion_type == SuggestionType::Argument));
}

#[test]
fn test_suggest_args_with_partial() {
    let engine = SuggestionEngine::new(&create_arg_test_commands());
    let prefixes = strs(&["cargo", "cargo build"]);
    let suggestions = engine.suggest_args(&prefixes, "--ta", &[], 10);
    assert_eq!(suggestions.len(), 1);
    assert_eq!(suggestions[0].text, "--target");
}

#[test]
fn test_suggest_args_excludes_existing() {
    let engine = SuggestionEngine::new(&create_arg_test_commands());
    let prefixes = strs(&["cargo", "cargo build"]);
    let exclude = strs(&["--release"]);
    let suggestions = engine.suggest_args(&prefixes, "--", &exclude, 10);
    assert!(!suggestions.iter().any(|s| s.text == "--release"));
    assert!(suggestions.iter().any(|s| s.text == "--target"));
}

#[test]
fn test_suggest_arg_values() {
    let engine = SuggestionEngine::new(&create_arg_test_commands());
    let prefixes = strs(&["cargo", "cargo build"]);
    let suggestions = engine.suggest_arg_values(&prefixes, "--target", "", 10);
    assert!(!suggestions.is_empty());
    assert!(suggestions.iter().any(|s| s.text == "x86_64" && s.suggestion_type == SuggestionType::ArgumentValue));
    assert!(suggestions.iter().any(|s| s.text == "wasm32"));
}

#[test]
fn test_suggest_arg_values_with_partial() {
    let engine = SuggestionEngine::new(&create_arg_test_commands());
    let prefixes = strs(&["cargo", "cargo build"]);
    let suggestions = engine.suggest_arg_values(&prefixes, "--target", "x", 10);
    assert_eq!(suggestions.len(), 1);
    assert_eq!(suggestions[0].text, "x86_64");
}

#[test]
fn test_analyze_empty() {
    let engine = SuggestionEngine::new(&create_arg_test_commands());
    let ctx = engine.analyze_completed(&strs(&[]));
    assert_eq!(ctx.next_expected, NextExpected::Command);
}

#[test]
fn test_analyze_subcommand() {
    let engine = SuggestionEngine::new(&create_arg_test_commands());
    let ctx = engine.analyze_completed(&strs(&["cargo"]));
    assert_eq!(ctx.next_expected, NextExpected::Subcommand);
    assert_eq!(ctx.prefixes, vec!["cargo"]);
}

#[test]
fn test_analyze_subcommand_two_words() {
    let engine = SuggestionEngine::new(&create_arg_test_commands());
    let ctx = engine.analyze_completed(&strs(&["cargo", "build"]));
    assert_eq!(ctx.next_expected, NextExpected::Subcommand);
    assert_eq!(ctx.prefixes, vec!["cargo", "cargo build"]);
}

#[test]
fn test_analyze_after_flag() {
    let engine = SuggestionEngine::new(&create_arg_test_commands());
    let ctx = engine.analyze_completed(&strs(&["cargo", "build", "--release"]));
    assert_eq!(ctx.next_expected, NextExpected::Argument);
    assert!(ctx.existing_args.iter().any(|a| a == "--release"));
}

#[test]
fn test_analyze_after_value_taking_arg() {
    let engine = SuggestionEngine::new(&create_arg_test_commands());
    let ctx = engine.analyze_completed(&strs(&["cargo", "build", "--target"]));
    assert_eq!(ctx.next_expected, NextExpected::Value("--target".to_string()));
}

#[test]
fn test_analyze_after_value_consumed() {
    let engine = SuggestionEngine::new(&create_arg_test_commands());
    let ctx = engine.analyze_completed(&strs(&["cargo", "build", "--target", "x86_64"]));
    assert_eq!(ctx.next_expected, NextExpected::Argument);
    assert!(ctx.existing_args.iter().any(|a| a == "--target"));
}

#[test]
fn test_analyze_existing_args_tracked() {
    let engine = SuggestionEngine::new(&create_arg_test_commands());
    let ctx = engine.analyze_completed(&strs(&["cargo", "build", "--release", "--target", "x86_64"]));
    assert!(ctx.existing_args.iter().any(|a| a == "--release"));
    assert!(ctx.existing_args.iter().any(|a| a == "--target"));
    assert_eq!(ctx.next_expected, NextExpected::Argument);
}

#[test]
fn test_suggest_value_after_value_taking_arg() {
    let engine = SuggestionEngine::new(&create_arg_test_commands());
    let mut searcher = empty_searcher();
    let suggestions = engine.suggest("cargo test --run ", &mut searcher, 10);
    assert!(suggestions.iter().any(|s| s.text == "sample_run" && s.suggestion_type == SuggestionType::ArgumentValue));
}

#[test]
fn test_suggest_value_with_partial() {
    let engine = SuggestionEngine::new(&create_arg_test_commands());
    let mut searcher = empty_searcher();
    let suggestions = engine.suggest("cargo test --run sam", &mut searcher, 10);
    assert!(suggestions.iter().any(|s| s.text == "sample_run"));
    assert!(!suggestions.iter().any(|s| s.text == "integration_test"));
}

#[test]
fn test_suggest_arg_mid_typing() {
    let engine = SuggestionEngine::new(&create_arg_test_commands());
    let mut searcher = empty_searcher();
    let suggestions = engine.suggest("cargo build --re", &mut searcher, 10);
    assert!(suggestions.iter().any(|s| s.text == "--release"));
}

#[test]
fn test_suggest_args_after_flag() {
    let engine = SuggestionEngine::new(&create_arg_test_commands());
    let mut searcher = empty_searcher();
    let suggestions = engine.suggest("cargo build --release ", &mut searcher, 10);
    assert!(suggestions.iter().any(|s| s.text == "--target" && s.suggestion_type == SuggestionType::Argument));
    assert!(!suggestions.iter().any(|s| s.suggestion_type == SuggestionType::ArgumentValue));
}

#[test]
fn test_suggest_args_after_value_consumed() {
    let engine = SuggestionEngine::new(&create_arg_test_commands());
    let mut searcher = empty_searcher();
    let suggestions = engine.suggest("cargo build --target x86_64 ", &mut searcher, 10);
    assert!(suggestions.iter().any(|s| s.suggestion_type == SuggestionType::Argument));
    assert!(!suggestions.iter().any(|s| s.suggestion_type == SuggestionType::ArgumentValue));
}

#[test]
fn test_suggest_subcommand_fallback() {
    let engine = SuggestionEngine::new(&create_arg_test_commands());
    let mut searcher = empty_searcher();
    let suggestions = engine.suggest("cargo ", &mut searcher, 10);
    assert!(suggestions.iter().all(|s| s.suggestion_type == SuggestionType::FullCommand));
}

#[test]
fn test_suggest_empty_input() {
    let engine = SuggestionEngine::new(&create_arg_test_commands());
    let mut searcher = empty_searcher();
    let suggestions = engine.suggest("", &mut searcher, 10);
    assert!(suggestions.is_empty());
}

#[test]
fn test_suggest_first_word() {
    let engine = SuggestionEngine::new(&create_arg_test_commands());
    let mut searcher = empty_searcher();
    let suggestions = engine.suggest("car", &mut searcher, 10);
    assert!(suggestions.iter().all(|s| s.suggestion_type == SuggestionType::FullCommand));
}

#[test]
fn value_scenario_ranks_the_frequent_value_first() {
    let engine = SuggestionEngine::new(&create_arg_test_commands());
    let mut searcher = empty_searcher();
    let s = engine.suggest("cargo test --run sam", &mut searcher, 10);
    assert_eq!(s[0].text, "sample_run");
    assert_eq!(s[0].suggestion_type, SuggestionType::ArgumentValue);
}

#[test]
fn counts_are_weighted_by_frequency_and_prefix() {
    let engine = SuggestionEngine::new(&create_arg_test_commands());
    assert_eq!(engine.arg_count("cargo build", "--target"), 8);
    assert_eq!(engine.arg_count("cargo", "--release"), 10);
    assert_eq!(engine.arg_value_count("cargo test", "--run", "sample_run"), 7);
    // one pair per prefix: "cargo" and "cargo test"
    assert_eq!(engine.global_value_count("--run", "sample_run"), 14);
    assert_eq!(engine.arg_count("cargo", "--missing"), 0);
    assert!(engine.arg_takes_value("--target"));
    assert!(!engine.arg_takes_value("--release"));
}

#[test]
fn innermost_prefix_counts_double() {
    let engine = SuggestionEngine::new(&create_arg_test_commands());
    let s = engine.suggest_args(&strs(&["cargo", "cargo build"]), "--", &[], 10);
    assert_eq!(s[0].text, "--release");
    assert_eq!(s[0].score, 40);
    assert_eq!(s[1].text, "--target");
    assert_eq!(s[1].score, 32);
    let limited = engine.suggest_args(&strs(&["cargo", "cargo build"]), "--", &[], 1);
    assert_eq!(limited.len(), 1);
}

#[test]
fn global_values_when_the_prefix_has_none() {
    let engine = SuggestionEngine::new(&create_arg_test_commands());
    let s = engine.suggest_arg_values(&strs(&["git"]), "--run", "", 10);
    assert_eq!(s.len(), 2);
    assert_eq!(s[0].text, "sample_run");
    assert_eq!(s[0].score, 28);
}

#[test]
fn indexing_a_command_adds_weight_one() {
    let mut engine = SuggestionEngine::new(&[]);
    engine.index_command("make -j 8");
    engine.index_command("make -j 8");
    assert_eq!(engine.arg_value_count("make", "-j", "8"), 2);
    assert!(engine.arg_takes_value("-j"));
}

#[test]
fn quoted_words_and_broken_quotes() {
    let parsed = parse_command("git commit -m \"two words\"");
    assert_eq!(parsed.args[0].value, Some("two words".to_string()));
    let broken = parse_command("echo \"open -x");
    assert_eq!(broken.prefixes, vec!["echo", "echo \"open"]);
    assert_eq!(broken.args[0].name, "-x");
}

#[test]
fn argument_suggestions_skip_present_flags() {
    let engine = SuggestionEngine::new(&create_arg_test_commands());
    let mut searcher = empty_searcher();
    let s = engine.suggest("cargo build --release --", &mut searcher, 10);
    assert!(s.iter().all(|x| x.text != "--release"));
    assert!(s.iter().any(|x| x.text == "--target"));
}

#[test]
fn value_aware_walk_after_flag_value() {
    let engine = SuggestionEngine::new(&create_arg_test_commands());
    let ctx = engine.analyze_completed(&strs(&["cargo", "test", "--run", "x"]));
    assert_eq!(ctx.next_expected, NextExpected::Argument);
    assert!(ctx.existing_args.iter().any(|a| a == "--run"));
}

#[test]
fn whole_commands_come_first() {
    let engine = SuggestionEngine::new(&create_arg_test_commands());
    let mut searcher = empty_searcher();
    searcher.record_usage("cargo build --release", 5).unwrap();
    let s = engine.suggest("cargo build --re", &mut searcher, 10);
    assert_eq!(s[0].suggestion_type, SuggestionType::FullCommand);
    assert_eq!(s[0].text, "cargo build --release");
}

#[test]
fn each_flag_offered_once() {
    let engine = SuggestionEngine::new(&create_arg_test_commands());
    let s = engine.suggest_args(&strs(&["cargo", "cargo build"]), "", &[], 10);
    let mut texts: Vec<&str> = s.iter().map(|x| x.text.as_str()).collect();
    let n = texts.len();
    texts.sort();
    texts.dedup();
    assert_eq!(texts.len(), n);
    assert_eq!(texts, vec!["--release", "--run", "--target"]);
}
