use filewatcher::config::parse_args_from;
use filewatcher::config::parse_duration_str;
use filewatcher::config::Config;
use filewatcher::parse_extensions;

fn strs(args: &[&str]) -> Vec<String> {
    args.iter().map(|s| s.to_string()).collect()
}

#[test]
fn args_defaults() {
    let c = parse_args_from(&strs(&["src"])).unwrap();
    assert_eq!(c.extensions, vec![".php"]);
    assert!(!c.poll);
    assert_eq!(c.poll_interval_ms, 500);
    assert_eq!(c.debounce_ms, 300);
    assert_eq!(c.paths, vec!["src"]);
}

#[test]
fn args_flags() {
    let c = parse_args_from(&strs(&[
        "--ext",
        "php,js",
        "--poll",
        "--poll-interval",
        "1s",
        "--debounce",
        "150ms",
        "a",
        "b",
    ]))
    .unwrap();
    assert_eq!(c.extensions, vec![".php", ".js"]);
    assert!(c.poll);
    assert_eq!(c.poll_interval_ms, 1000);
    assert_eq!(c.debounce_ms, 150);
    assert_eq!(c.paths, vec!["a", "b"]);
}

#[test]
fn args_errors() {
    assert!(parse_args_from(&strs(&[])).is_err());
    assert!(parse_args_from(&strs(&["--ext"])).is_err());
    assert!(parse_args_from(&strs(&["--poll-interval"])).is_err());
    assert!(parse_args_from(&strs(&["--debounce", "abc", "src"])).is_err());
    assert!(parse_args_from(&strs(&["--bogus", "src"])).is_err());
    match parse_args_from(&strs(&[])) {
        Err(msg) => assert_eq!(msg, "at least one path argument is required"),
        Ok(_) => panic!("an empty argument list must be rejected"),
    }
}

#[test]
fn parse_extensions_single() {
    assert_eq!(parse_extensions("php"), vec![".php"]);
}

#[test]
fn parse_extensions_multiple() {
    assert_eq!(
        parse_extensions("php,blade.php,js"),
        vec![".php", ".blade.php", ".js"]
    );
}

#[test]
fn parse_extensions_with_dots() {
    assert_eq!(parse_extensions(".php,.js"), vec![".php", ".js"]);
}

#[test]
fn parse_extensions_whitespace() {
    assert_eq!(parse_extensions(" php , js "), vec![".php", ".js"]);
}

#[test]
fn parse_extensions_empty() {
    let result: Vec<String> = parse_extensions("");
    assert!(result.is_empty());
}

#[test]
fn parse_extensions_trailing_comma() {
    assert_eq!(parse_extensions("php,"), vec![".php"]);
}

#[test]
fn parse_duration_bare_integer_is_milliseconds() {
    assert_eq!(parse_duration_str("300"), Ok(300));
    assert_eq!(parse_duration_str("0"), Ok(0));
}

#[test]
fn parse_duration_ms_suffix() {
    assert_eq!(parse_duration_str("250ms"), Ok(250));
}

#[test]
fn parse_duration_seconds_suffix() {
    assert_eq!(parse_duration_str("2s"), Ok(2000));
    assert_eq!(parse_duration_str("1.5s"), Ok(1500));
    assert_eq!(parse_duration_str("0.25s"), Ok(250));
    assert_eq!(parse_duration_str(".5s"), Ok(500));
    assert_eq!(parse_duration_str("5.s"), Ok(5000));
}

#[test]
fn parse_duration_truncates_below_milliseconds() {
    assert_eq!(parse_duration_str("0.1234s"), Ok(123));
}

#[test]
fn parse_duration_malformed() {
    assert!(parse_duration_str("").is_err());
    assert!(parse_duration_str("abc").is_err());
    assert!(parse_duration_str("ms").is_err());
    assert!(parse_duration_str("s").is_err());
    assert!(parse_duration_str(".s").is_err());
    assert!(parse_duration_str("1.2.3s").is_err());
    assert!(parse_duration_str("-5").is_err());
}

#[test]
fn parse_duration_error_message_names_the_input() {
    match parse_duration_str("abc") {
        Err(m) => assert_eq!(m, "invalid duration: abc"),
        Ok(_) => panic!("a malformed duration must be rejected"),
    }
}

#[test]
fn parse_extensions_unicode_whitespace() {
    assert_eq!(parse_extensions("\u{a0}php\u{2003},js\u{3000}"), vec![".php", ".js"]);
}

#[test]
fn parse_duration_overflow() {
    assert!(parse_duration_str("99999999999999999999999").is_err());
    assert!(parse_duration_str("99999999999999999999999s").is_err());
}

#[test]
fn config_holds_plain_values() {
    let c = Config {
        extensions: parse_extensions("php"),
        poll: false,
        poll_interval_ms: 500,
        debounce_ms: 300,
        paths: vec!["src".to_string()],
    };
    assert_eq!(c.extensions, vec![".php"]);
    assert!(!c.poll);
    assert_eq!(c.poll_interval_ms, 500);
    assert_eq!(c.debounce_ms, 300);
    assert_eq!(c.paths.len(), 1);
}
