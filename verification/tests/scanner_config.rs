use alias8n::config::get_config_from_args;
use alias8n::scan::has_json_extension;
use alias8n::scan::scan_aliases;
use alias8n::fetch_last;

#[test]
fn test_captures_into_vec() {
    let src_string = String::from("a(:a:) a(:b:) a(:c:)");
    let aliases = scan_aliases(&src_string);
    assert_eq!(aliases, vec!["a(:a:)", "a(:b:)", "a(:c:)"]);
}

#[test]
fn scanner_is_non_greedy() {
    let aliases = scan_aliases("x a(:p, q:) y a(:r:) a(:");
    assert_eq!(aliases, vec!["a(:p, q:)", "a(:r:)"]);
}

#[test]
fn scanner_keeps_duplicates_in_order() {
    let aliases = scan_aliases("a(:t:) mid a(:t:)");
    assert_eq!(aliases, vec!["a(:t:)", "a(:t:)"]);
}

#[test]
fn json_extension_checked_by_suffix() {
    assert!(has_json_extension("./ctx.json"));
    assert!(!has_json_extension("./ctx.json.txt"));
    assert!(!has_json_extension("json"));
}

#[test]
fn fetch_last_takes_from_the_back() {
    let mut v = vec![1, 2, 3];
    assert_eq!(fetch_last(&mut v), Some(3));
    assert_eq!(v, vec![1, 2]);
    let mut empty: Vec<i32> = Vec::new();
    assert_eq!(fetch_last(&mut empty), None);
}

#[test]
fn test_get_config_from_args() {
    let args = vec![
        String::from("alias8n"),
        String::from("--ctx"),
        String::from("./ctx.json"),
        String::from("--source"),
        String::from("./index.html"),
        String::from("--dest"),
        String::from("./index-aliased.html"),
    ];
    let config = get_config_from_args(args).unwrap();
    assert_eq!(config.ctx_path.unwrap(), "./ctx.json");
    assert_eq!(config.source.unwrap(), "./index.html");
    assert_eq!(config.dest.unwrap(), "./index-aliased.html");
}

#[test]
fn test_get_config_from_args_with_default() {
    let args = vec![
        String::from("alias8n"),
        String::from("--ctx"),
        String::from("./ctx.json"),
    ];
    let config = get_config_from_args(args).unwrap();
    assert_eq!(config.ctx_path.unwrap(), "./ctx.json");
    assert_eq!(config.source.unwrap(), "./index.html");
    assert_eq!(config.dest.unwrap(), "./index-aliased.html");
}

#[test]
fn test_get_config_from_args_with_default_2() {
    let args = vec![
        String::from("alias8n"),
        String::from("--ctx"),
        String::from("./ctx.json"),
        String::from("--source"),
        String::from("./index.html"),
    ];
    let config = get_config_from_args(args).unwrap();
    assert_eq!(config.ctx_path.unwrap(), "./ctx.json");
    assert_eq!(config.source.unwrap(), "./index.html");
    assert_eq!(config.dest.unwrap(), "./index-aliased.html");
}

#[test]
fn test_get_config_from_args_with_default_3() {
    let args = vec![
        String::from("alias8n"),
        String::from("--ctx"),
        String::from("./ctx.json"),
        String::from("--dest"),
        String::from("./index-aliased.html"),
    ];
    let config = get_config_from_args(args).unwrap();
    assert_eq!(config.ctx_path.unwrap(), "./ctx.json");
    assert_eq!(config.source.unwrap(), "./index.html");
    assert_eq!(config.dest.unwrap(), "./index-aliased.html");
}

#[test]
fn test_get_config_from_args_with_default_4() {
    let args = vec![
        String::from("alias8n"),
        String::from("--ctx"),
        String::from("./ctx.json"),
        String::from("--source"),
        String::from("./index.html"),
        String::from("--dest"),
        String::from("./index-aliased.html"),
        String::from("--ctx"),
        String::from("./ctx2.json"),
    ];
    let config = get_config_from_args(args).unwrap();
    assert_eq!(config.ctx_path.unwrap(), "./ctx2.json");
    assert_eq!(config.source.unwrap(), "./index.html");
    assert_eq!(config.dest.unwrap(), "./index-aliased.html");
}
