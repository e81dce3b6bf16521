use mux::parallel::{expand, parse_bracket_block, parse_parallel, parse_range};

#[test]
fn test_parse_range_numeric() {
    let vals = parse_range("1-5").unwrap();
    assert_eq!(vals, vec!["1", "2", "3", "4", "5"]);
}

#[test]
fn test_parse_range_zero_padded() {
    let vals = parse_range("01-05").unwrap();
    assert_eq!(vals, vec!["01", "02", "03", "04", "05"]);
}

#[test]
fn test_parse_range_list() {
    let vals = parse_range("east,west,staging").unwrap();
    assert_eq!(vals, vec!["east", "west", "staging"]);
}

#[test]
fn test_parse_parallel_single_param() {
    let parsed = parse_parallel("[shard=1-3] mysql -h shard-{shard}").unwrap();
    assert_eq!(parsed.groups.len(), 1);
    assert_eq!(parsed.groups[0].params[0].name, "shard");
    assert_eq!(parsed.groups[0].params[0].values, vec!["1", "2", "3"]);
    assert_eq!(parsed.template, "mysql -h shard-{shard}");
}

#[test]
fn test_parse_parallel_cross_product() {
    let parsed =
        parse_parallel("[shard=1-2] [region=east,west] cmd -s {shard} -r {region}").unwrap();
    assert_eq!(parsed.groups.len(), 2);
    assert_eq!(parsed.groups[0].params[0].values, vec!["1", "2"]);
    assert_eq!(parsed.groups[1].params[0].values, vec!["east", "west"]);
}

#[test]
fn test_parse_parallel_zip() {
    let parsed = parse_parallel("[shard=1-3 region=a,b,c] cmd {shard} {region}").unwrap();
    assert_eq!(parsed.groups.len(), 1);
    assert_eq!(parsed.groups[0].params.len(), 2);
    assert_eq!(parsed.groups[0].params[0].name, "shard");
    assert_eq!(parsed.groups[0].params[1].name, "region");
}

#[test]
fn test_parse_parallel_zip_mismatched_length() {
    let result = parse_parallel("[shard=1-3 region=a,b] cmd {shard} {region}");
    assert!(result.is_none());
}

#[test]
fn test_parse_parallel_not_parallel() {
    assert!(parse_parallel("echo hello").is_none());
    assert!(parse_parallel("ls -la").is_none());
}

#[test]
fn test_expand_single_param() {
    let parsed = parse_parallel("[n=1-3] echo {n}").unwrap();
    let expanded = expand(&parsed);
    assert_eq!(expanded.len(), 3);
    assert_eq!(expanded[0].command, "echo 1");
    assert_eq!(expanded[0].label, "[n=1]");
    assert_eq!(expanded[1].command, "echo 2");
    assert_eq!(expanded[2].command, "echo 3");
}

#[test]
fn test_expand_cross_product() {
    let parsed = parse_parallel("[a=1-2] [b=x,y] cmd {a} {b}").unwrap();
    let expanded = expand(&parsed);
    assert_eq!(expanded.len(), 4);
    assert_eq!(expanded[0].command, "cmd 1 x");
    assert_eq!(expanded[1].command, "cmd 1 y");
    assert_eq!(expanded[2].command, "cmd 2 x");
    assert_eq!(expanded[3].command, "cmd 2 y");
}

#[test]
fn test_expand_zip() {
    let parsed = parse_parallel("[a=1-3 b=x,y,z] cmd {a} {b}").unwrap();
    let expanded = expand(&parsed);
    assert_eq!(expanded.len(), 3);
    assert_eq!(expanded[0].command, "cmd 1 x");
    assert_eq!(expanded[1].command, "cmd 2 y");
    assert_eq!(expanded[2].command, "cmd 3 z");
}

#[test]
fn test_expand_zero_padded() {
    let parsed = parse_parallel("[n=01-03] echo {n}").unwrap();
    let expanded = expand(&parsed);
    assert_eq!(expanded[0].command, "echo 01");
    assert_eq!(expanded[1].command, "echo 02");
    assert_eq!(expanded[2].command, "echo 03");
}

#[test]
fn cross_times_zip_labels() {
    let parsed = parse_parallel("[a=1-2] [b=x,y] cmd {a} {b}").unwrap();
    let e = expand(&parsed);
    let got: Vec<(&str, &str)> = e.iter().map(|c| (c.command.as_str(), c.label.as_str())).collect();
    assert_eq!(
        got,
        vec![
            ("cmd 1 x", "[a=1][b=x]"),
            ("cmd 1 y", "[a=1][b=y]"),
            ("cmd 2 x", "[a=2][b=x]"),
            ("cmd 2 y", "[a=2][b=y]"),
        ]
    );
}

#[test]
fn count_is_product_of_group_sizes() {
    let parsed = parse_parallel("[a=1-3 b=x,y,z] [c=p,q] [d=7] run").unwrap();
    assert_eq!(expand(&parsed).len(), 3 * 2 * 1);
}

#[test]
fn descending_range_is_rejected() {
    assert!(parse_range("5-1").is_none());
    assert!(parse_parallel("[n=5-1] echo {n}").is_none());
}

#[test]
fn padding_follows_a_leading_zero_only() {
    let padded = parse_range("01-10").unwrap();
    assert_eq!(padded[0], "01");
    assert_eq!(padded[9], "10");
    let plain = parse_range("1-10").unwrap();
    assert_eq!(plain[0], "1");
    assert_eq!(plain[9], "10");
    assert_eq!(parse_range("1-100").unwrap().len(), 100);
    assert_eq!(parse_range("001-3").unwrap(), vec!["001", "002", "003"]);
}

#[test]
fn single_value_and_bad_numbers() {
    assert_eq!(parse_range("x").unwrap(), vec!["x"]);
    assert!(parse_range("a-b").is_none());
    assert_eq!(parse_range(" a , b ").unwrap(), vec!["a", "b"]);
}

#[test]
fn bare_braces_only_for_a_single_parameter() {
    let one = expand(&parse_parallel("[n=1-2] echo {} {n}").unwrap());
    assert_eq!(one[0].command, "echo 1 1");
    let two = expand(&parse_parallel("[n=1-2] [m=a] echo {} {n}").unwrap());
    assert_eq!(two[0].command, "echo {} 1");
}

#[test]
fn block_and_template_rules() {
    assert!(parse_parallel("[n=1-2]").is_none());
    assert!(parse_parallel("[n=1-2").is_none());
    assert!(parse_parallel("[] echo").is_none());
    assert!(parse_parallel("[n] echo").is_none());
    assert!(parse_bracket_block("[a=1 b=2]").is_some());
    assert!(parse_bracket_block("a=1").is_none());
    let p = parse_parallel("  [n=1]   [m=2]  echo {n}{m} ").unwrap();
    assert_eq!(p.groups.len(), 2);
    assert_eq!(p.template, "echo {n}{m}");
}
