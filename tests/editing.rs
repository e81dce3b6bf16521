use mux::editing::{extract_first_word, find_next_word_boundary, find_prev_word_boundary, next_char_pos, prev_char_pos};
use mux::preview::{accepted_input, classify_tokens, suggestion_full_preview, suggestion_preview, TokenKind};
use mux::suggest::SuggestionType;

#[test]
fn char_steps() {
    assert_eq!(prev_char_pos("héllo", 2), 1);
    assert_eq!(prev_char_pos("abc", 0), 0);
    assert_eq!(prev_char_pos("abc", 9), 2);
    assert_eq!(next_char_pos("héllo", 1), 2);
    assert_eq!(next_char_pos("ab", 1), 2);
    assert_eq!(next_char_pos("ab", 5), 2);
}

#[test]
fn word_boundaries() {
    assert_eq!(find_prev_word_boundary("git commit  ", 12), 4);
    assert_eq!(find_prev_word_boundary("git", 3), 0);
    assert_eq!(find_prev_word_boundary("   ", 3), 0);
    assert_eq!(find_next_word_boundary("git commit -m", 0), 4);
    assert_eq!(find_next_word_boundary("git commit", 4), 10);
    assert_eq!(find_next_word_boundary("ab", 7), 7);
}

#[test]
fn first_word_keeps_leading_space() {
    assert_eq!(extract_first_word("  build --release"), "  build");
    assert_eq!(extract_first_word("x"), "x");
    assert_eq!(extract_first_word(""), "");
}

#[test]
fn previews() {
    assert_eq!(suggestion_preview("car", "cargo build", SuggestionType::FullCommand), Some("go build".to_string()));
    assert_eq!(suggestion_preview("x", "cargo", SuggestionType::FullCommand), None);
    assert_eq!(suggestion_preview("cargo --re", "--release", SuggestionType::Argument), Some("lease".to_string()));
    assert_eq!(suggestion_preview("cargo x", "--release", SuggestionType::Argument), Some(" --release".to_string()));
    assert_eq!(suggestion_preview("cargo ", "--release", SuggestionType::Argument), Some("--release".to_string()));
    assert_eq!(
        suggestion_full_preview("cargo --re", "--release", SuggestionType::Argument),
        ("cargo ".to_string(), "--release".to_string())
    );
    assert_eq!(
        suggestion_full_preview("car", "cargo", SuggestionType::FullCommand),
        ("car".to_string(), "go".to_string())
    );
}

#[test]
fn accepting() {
    assert_eq!(accepted_input("cargo --re", "--release", SuggestionType::Argument), "cargo --release");
    assert_eq!(accepted_input("cargo ", "--release", SuggestionType::Argument), "cargo --release");
    assert_eq!(accepted_input("--re", "--release", SuggestionType::Argument), "--release");
    assert_eq!(accepted_input("car", "cargo test", SuggestionType::FullCommand), "cargo test");
}

#[test]
fn token_kinds() {
    let k = classify_tokens("cargo", "cargo build --target x86 -- -x");
    let kinds: Vec<TokenKind> = k.iter().map(|x| x.1).collect();
    assert_eq!(
        kinds,
        vec![
            TokenKind::Typed,
            TokenKind::Subcommand,
            TokenKind::Flag,
            TokenKind::Value,
            TokenKind::Value,
            TokenKind::Flag,
        ]
    );
}
