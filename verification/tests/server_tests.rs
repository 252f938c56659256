use braid_core::server::{
    ascii_ify, free_cors_headers, header_block, is_firefox_agent, multiplex_target, parse_content_range, BraidError,
    ServerConfig,
};

#[test]
fn test_timeout_is_retryable() {
    assert!(BraidError::Timeout.is_retryable());
}

#[test]
fn test_history_dropped_not_retryable() {
    assert!(!BraidError::HistoryDropped.is_retryable());
}

#[test]
fn test_http_503_is_retryable() {
    let err = BraidError::Http("503 Service Unavailable".into());
    assert!(err.is_retryable());
}

#[test]
fn test_access_denied_401() {
    let err = BraidError::Http("401 Unauthorized".into());
    assert!(err.is_access_denied());
}

#[test]
fn other_errors_are_neither_retryable_nor_denials() {
    assert!(BraidError::Io("disk".into()).is_retryable());
    assert!(!BraidError::Http("404 Not Found".into()).is_retryable());
    assert!(!BraidError::Http("404 Not Found".into()).is_access_denied());
    assert!(BraidError::Http("403 Forbidden".into()).is_access_denied());
    assert!(!BraidError::Timeout.is_access_denied());
    assert!(BraidError::Http("429 Too Many Requests".into()).is_retryable());
}

#[test]
fn test_default_config() {
    let config = ServerConfig::default();
    assert!(config.enable_subscriptions);
    assert_eq!(config.max_subscriptions, 1000);
    assert_eq!(config.max_subscription_duration_secs, 3600);
    assert_eq!(config.heartbeat_interval, 30);
    assert!(!config.enable_multiplex);
}

#[test]
fn test_custom_config() {
    let config = ServerConfig {
        enable_subscriptions: false,
        max_subscriptions: 5000,
        max_subscription_duration_secs: 7200,
        heartbeat_interval: 60,
        enable_multiplex: true,
    };
    assert!(!config.enable_subscriptions);
    assert_eq!(config.max_subscriptions, 5000);
    assert!(config.enable_multiplex);
}

#[test]
fn test_partial_override() {
    let config = ServerConfig { max_subscriptions: 5000, ..Default::default() };
    assert_eq!(config.max_subscriptions, 5000);
    assert!(config.enable_subscriptions);
    assert_eq!(config.heartbeat_interval, 30);
}

#[test]
fn test_clone() {
    let config = ServerConfig::default();
    let cloned = config.clone();
    assert_eq!(config, cloned);
}

#[test]
fn test_debug() {
    let config = ServerConfig::default();
    let debug = format!("{:?}", config);
    assert!(debug.contains("ServerConfig"));
    assert!(debug.contains("enable_subscriptions"));
}

#[test]
fn test_parse_content_range() {
    let (unit, range) = parse_content_range("json .field").unwrap();
    assert_eq!(unit, "json");
    assert_eq!(range, ".field");
}

#[test]
fn content_range_without_a_space_is_refused() {
    match parse_content_range("bytes") {
        Err(BraidError::HeaderParse(msg)) => assert_eq!(msg, "Invalid Content-Range: bytes"),
        other => panic!("unexpected {:?}", other),
    }
    let (unit, range) = parse_content_range("text [1:2] more").unwrap();
    assert_eq!(unit, "text");
    assert_eq!(range, "[1:2] more");
}

#[test]
fn test_ascii_ify_simple() {
    assert_eq!(ascii_ify("hello"), "hello");
    assert_eq!(ascii_ify("test 123"), "test 123");
}

#[test]
fn test_ascii_ify_unicode() {
    assert_eq!(ascii_ify("héllo"), "h\\u00e9llo");
    assert_eq!(ascii_ify("日本語"), "\\u65e5\\u672c\\u8a9e");
}

#[test]
fn test_ascii_ify_control_chars() {
    assert_eq!(ascii_ify("hello\nworld"), "hello\\u000aworld");
    assert_eq!(ascii_ify("tab\there"), "tab\\u0009here");
}

#[test]
fn ascii_ify_escapes_delete_and_keeps_tilde() {
    assert_eq!(ascii_ify("~\u{7f}"), "~\\u007f");
    assert_eq!(ascii_ify(""), "");
}

#[test]
fn test_free_cors_headers() {
    let headers = free_cors_headers();
    assert_eq!(headers.len(), 4);
    assert!(headers.iter().any(|(k, _)| *k == "access-control-allow-origin"));
}

#[test]
fn firefox_is_recognised_in_any_case() {
    assert!(is_firefox_agent(Some("Mozilla/5.0 Gecko/20100101 FireFox/121.0")));
    assert!(!is_firefox_agent(Some("curl/8.0")));
    assert!(!is_firefox_agent(None));
}

#[test]
fn multiplex_targets_name_multiplexer_and_request() {
    assert_eq!(
        multiplex_target("/.well-known/multiplexer/m1/r2"),
        Some(("m1".to_string(), "r2".to_string()))
    );
    assert_eq!(multiplex_target("/.well-known/other/m1/r2"), None);
    assert_eq!(multiplex_target("/.well-known/multiplexer/m1"), None);
}

#[test]
fn header_blocks_list_status_and_headers() {
    let headers = vec![("version".to_string(), "\"v1\"".to_string()), ("x".to_string(), "y".to_string())];
    assert_eq!(header_block(209, &headers), ":status: 209\r\nversion: \"v1\"\r\nx: y\r\n\r\n");
    assert_eq!(header_block(200, &vec![]), ":status: 200\r\n\r\n");
}

#[test]
fn ascii_ify_escapes_surrogate_pairs() {
    assert_eq!(ascii_ify("\u{1F600}"), "\\ud83d\\ude00");
    assert_eq!(ascii_ify("a\u{10000}"), "a\\ud800\\udc00");
}
