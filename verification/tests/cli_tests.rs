use quote_stream::cli::parse;
use quote_stream::config::ServerConfig;
use quote_stream::errors::QuoteError;

fn args(list: &[&str]) -> Vec<String> {
    list.iter().map(|s| s.to_string()).collect()
}

#[test]
fn test_parse_args_valid() {
    let a = args(&[
        "--server-addr",
        "127.0.0.1:8080",
        "--udp-port",
        "9000",
        "--tickers-file",
        "tickers.txt",
    ]);
    let c = parse(&a).expect("valid arguments");
    assert_eq!(c.server_addr, "127.0.0.1:8080");
    assert_eq!(c.udp_port, 9000);
    assert_eq!(c.tickers_file, "tickers.txt");
}

#[test]
fn test_parse_args_any_order() {
    let a = args(&[
        "--tickers-file",
        "t.txt",
        "--server-addr",
        "h:1",
        "--udp-port",
        "1",
    ]);
    let c = parse(&a).expect("valid arguments");
    assert_eq!(c.udp_port, 1);
}

#[test]
fn test_parse_args_rejects() {
    assert!(parse(&args(&["--server-addr", "h:1"])).is_err());
    assert!(parse(&args(&[
        "--server-addr", "h:1", "--udp-port", "notaport", "--tickers-file", "t"
    ]))
    .is_err());
    assert!(parse(&args(&[
        "--server-addr", "h:1", "--udp-port", "70000", "--tickers-file", "t"
    ]))
    .is_err());
    let err = parse(&Vec::new()).expect_err("empty arguments");
    assert!(matches!(err, QuoteError::ConfigError { .. }));
}

#[test]
fn test_config_defaults() {
    let c = ServerConfig::from_parts(
        "127.0.0.1:8080".to_string(),
        "tickers.txt".to_string(),
        None,
        None,
        Vec::new(),
    );
    assert_eq!(c.quote_rate_ms, 1_000);
    assert_eq!(c.keepalive_timeout_secs, 5);
    assert!(c.initial_prices.is_empty());

    let c = ServerConfig::from_parts(
        "127.0.0.1:8080".to_string(),
        "tickers.txt".to_string(),
        Some(500),
        Some(10),
        vec![("AAPL".to_string(), 15000)],
    );
    assert_eq!(c.quote_rate_ms, 500);
    assert_eq!(c.keepalive_timeout_secs, 10);
    assert_eq!(c.initial_prices[0].1, 15000);
}
