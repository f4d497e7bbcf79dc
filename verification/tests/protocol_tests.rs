use quote_stream::errors::QuoteError;
use quote_stream::net::{IpAddress, SocketAddress};
use quote_stream::protocol::{
    build_stream_command, interpret_response, parse_stream_command, response_line, sockaddr_string,
};

#[test]
fn test_parse_stream_command_valid() {
    let command = "STREAM udp://127.0.0.1:9000 aapl, tsla \n";
    let result = parse_stream_command(command).expect("valid command");
    assert_eq!(result.udp_addr, SocketAddress::v4(127, 0, 0, 1, 9000));
    assert_eq!(result.tickers, vec!["AAPL".to_string(), "TSLA".to_string()]);
}

#[test]
fn test_parse_stream_command_missing_prefix() {
    let err = parse_stream_command("START udp://127.0.0.1:9000 AAPL").expect_err("should fail");
    assert!(matches!(err, QuoteError::InvalidCommand { .. }));
}

#[test]
fn test_parse_stream_command_invalid_address() {
    let err = parse_stream_command("STREAM udp://bad-address AAPL").expect_err("should fail");
    assert!(matches!(err, QuoteError::InvalidCommand { .. }));
}

#[test]
fn test_parse_stream_command_empty_tickers() {
    let err = parse_stream_command("STREAM udp://127.0.0.1:9000   ").expect_err("should fail");
    assert!(matches!(err, QuoteError::InvalidCommand { .. }));
}

#[test]
fn test_parse_stream_command_invalid_ticker() {
    let err = parse_stream_command("STREAM udp://127.0.0.1:9000 a$pl").expect_err("should fail");
    assert!(matches!(err, QuoteError::InvalidCommand { .. }));
}

#[test]
fn test_parse_stream_command_ipv6() {
    let result = parse_stream_command("STREAM udp://[::1]:9000 AAPL\n").expect("valid command");
    match result.udp_addr.ip {
        IpAddress::V6(v6) => {
            assert_eq!(
                (v6.s0, v6.s1, v6.s2, v6.s3, v6.s4, v6.s5, v6.s6, v6.s7),
                (0, 0, 0, 0, 0, 0, 0, 1)
            );
        }
        _ => panic!("expected an IPv6 address"),
    }
    assert_eq!(result.udp_addr.port, 9000);
}

#[test]
fn test_error_reply_mentions_stream() {
    let r = parse_stream_command("START udp://127.0.0.1:9000 AAPL\n");
    let line = response_line(&r);
    assert!(line.starts_with("ERR "));
    assert!(line.contains("STREAM"));
    assert!(line.ends_with("\n"));
}

#[test]
fn test_error_reply_mentions_invalid_address() {
    let r = parse_stream_command("STREAM udp://not-an-addr AAPL\n");
    let line = response_line(&r);
    assert!(line.starts_with("ERR "));
    assert!(line.contains("invalid UDP address"));
}

#[test]
fn test_ok_reply() {
    let r = parse_stream_command("STREAM udp://127.0.0.1:9000 AAPL\n");
    assert_eq!(response_line(&r), "OK\n");
}

#[test]
fn test_build_stream_command_formats_correctly() {
    let addr = SocketAddress::v4(127, 0, 0, 1, 4000);
    let cmd = build_stream_command(&addr, &vec!["AAPL".into(), "TSLA".into()]);
    assert_eq!(cmd, "STREAM udp://127.0.0.1:4000 AAPL,TSLA\n");
}

#[test]
fn test_built_command_parses_back() {
    let addr = SocketAddress::v4(10, 1, 2, 3, 65535);
    let tickers = vec!["AAPL".to_string(), "X9".to_string()];
    let cmd = build_stream_command(&addr, &tickers);
    let parsed = parse_stream_command(&cmd).expect("round trip");
    assert_eq!(parsed.udp_addr, addr);
    assert_eq!(parsed.tickers, tickers);
}

#[test]
fn test_sockaddr_string_forms() {
    assert_eq!(sockaddr_string(&SocketAddress::v4(192, 168, 0, 17, 80)), "192.168.0.17:80");
}

#[test]
fn test_interpret_response_ok() {
    assert!(interpret_response("OK").is_ok());
}

#[test]
fn test_interpret_response_err() {
    let err = interpret_response("ERR invalid").expect_err("should fail");
    assert!(matches!(err, QuoteError::InvalidCommand { ref message, .. } if message == "invalid"));
}

#[test]
fn test_interpret_response_unexpected() {
    let err = interpret_response("UNKNOWN").expect_err("should fail");
    assert!(matches!(err, QuoteError::ParseError { .. }));
}

#[test]
fn test_repeated_failed_parses_do_not_degrade() {
    for _ in 0..1000 {
        assert!(parse_stream_command("BOGUS line\n").is_err());
    }
    assert!(parse_stream_command("STREAM udp://127.0.0.1:9000 AAPL\n").is_ok());
}
