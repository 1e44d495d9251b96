use hls2dash::config::{parse_env_line, white_space, Config, ConfigVars};

fn unset() -> ConfigVars<'static> {
    ConfigVars {
        port: None,
        proxy_base: None,
        cache_max_capacity: None,
        upstream_timeout_secs: None,
        log_level: None,
        transmux_ts: None,
    }
}

#[test]
fn config_defaults() {
    let config = Config::from_vars(&unset());
    assert_eq!(config.port, 3100);
    assert_eq!(config.proxy_base, "");
    assert_eq!(config.cache_max_capacity, 500);
    assert_eq!(config.upstream_timeout_secs, 15);
    assert_eq!(config.log_level, "info");
    assert!(!config.transmux_ts);
}

#[test]
fn config_from_variables() {
    let config = Config::from_vars(&ConfigVars {
        port: Some("8080"),
        proxy_base: Some("https://b"),
        cache_max_capacity: Some("10"),
        upstream_timeout_secs: Some("3"),
        log_level: Some("debug"),
        transmux_ts: Some("true"),
    });
    assert_eq!(config.port, 8080);
    assert_eq!(config.proxy_base, "https://b");
    assert_eq!(config.cache_max_capacity, 10);
    assert_eq!(config.upstream_timeout_secs, 3);
    assert_eq!(config.log_level, "debug");
    assert!(config.transmux_ts);
}

#[test]
fn a_cloned_config_is_the_same() {
    let mut vars = unset();
    vars.proxy_base = Some("https://b");
    let config = Config::from_vars(&vars);
    let copy = config.clone();
    assert_eq!(copy.proxy_base, "https://b");
    assert_eq!(copy.port, config.port);
}

#[test]
fn config_ignores_what_is_no_number() {
    let mut vars = unset();
    vars.port = Some("65536");
    vars.cache_max_capacity = Some("many");
    vars.upstream_timeout_secs = Some("");
    let config = Config::from_vars(&vars);
    assert_eq!(config.port, 3100);
    assert_eq!(config.cache_max_capacity, 500);
    assert_eq!(config.upstream_timeout_secs, 15);
}

#[test]
fn config_transmux_values() {
    for (value, expected) in vec![("true", true), ("1", true), ("TRUE", false), ("yes", false), ("0", false), ("", false)] {
        let mut vars = unset();
        vars.transmux_ts = Some(value);
        assert_eq!(Config::from_vars(&vars).transmux_ts, expected, "{}", value);
    }
}

fn pair(key: &str, value: &str) -> Option<(String, String)> {
    Some((key.to_string(), value.to_string()))
}

#[test]
fn env_lines() {
    assert_eq!(parse_env_line("PORT=3100"), pair("PORT", "3100"));
    assert_eq!(parse_env_line("  PORT = 3100 \r"), pair("PORT", "3100"));
    assert_eq!(parse_env_line("A=\"x y\""), pair("A", "x y"));
    assert_eq!(parse_env_line("A='x'"), pair("A", "x"));
    assert_eq!(parse_env_line("A=\"'x'\""), pair("A", "x"));
    assert_eq!(parse_env_line("A='\"x\"'"), pair("A", "\"x\""));
    assert_eq!(parse_env_line("A=b=c"), pair("A", "b=c"));
    assert_eq!(parse_env_line("A="), pair("A", ""));
    assert_eq!(parse_env_line("A=\"\"\"x\""), pair("A", "x"));
    assert_eq!(parse_env_line("A=\u{3000}x\u{a0}"), pair("A", "x"));
}

#[test]
fn env_lines_without_assignment() {
    assert_eq!(parse_env_line(""), None);
    assert_eq!(parse_env_line("   \t"), None);
    assert_eq!(parse_env_line("# PORT=1"), None);
    assert_eq!(parse_env_line("  #x=1"), None);
    assert_eq!(parse_env_line("PORT"), None);
}

#[test]
fn malformed_env_lines_are_ignored() {
    assert_eq!(parse_env_line("=x"), None);
    assert_eq!(parse_env_line("  = x"), None);
    assert_eq!(parse_env_line("="), None);
    assert_eq!(parse_env_line("A\0B=x"), None);
    assert_eq!(parse_env_line("A=x\0y"), None);
}

#[test]
fn white_space_is_that_of_unicode() {
    for code in 0..=0x10ffffu32 {
        if let Some(c) = char::from_u32(code) {
            assert_eq!(white_space(c), c.is_whitespace(), "{:#x}", code);
        }
    }
}
