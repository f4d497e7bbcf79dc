use quote_stream::dispatcher::{Dispatcher, UdpCommand};
use quote_stream::net::SocketAddress;
use quote_stream::protocol::StreamRequest;
use quote_stream::quote::StockQuote;

fn request(port: u16, tickers: &[&str]) -> StreamRequest {
    StreamRequest {
        udp_addr: SocketAddress::v4(127, 0, 0, 1, port),
        tickers: tickers.iter().map(|t| t.to_string()).collect(),
    }
}

fn quote(ticker: &str) -> StockQuote {
    StockQuote { ticker: ticker.to_string(), price_cents: 15000, volume: 1000, timestamp: 1 }
}

#[test]
fn test_deliver_filters_by_ticker() {
    let mut d = Dispatcher::new(5_000);
    let a = d.register(request(9000, &["AAPL"]), 0);
    let b = d.register(request(9001, &["MSFT", "AAPL"]), 0);
    let c = d.register(request(9002, &["MSFT"]), 0);
    assert_eq!((a, b, c), (0, 1, 2));

    let targets = d.deliver(&quote("AAPL"));
    assert_eq!(targets, vec![a, b]);
    let targets = d.deliver(&quote("MSFT"));
    assert_eq!(targets, vec![b, c]);
    let targets = d.deliver(&quote("TSLA"));
    assert!(targets.is_empty());
}

#[test]
fn test_eviction_on_missed_keepalive() {
    let mut d = Dispatcher::new(100);
    let id = d.register(request(9000, &["AAPL"]), 0);

    // within the window nothing is evicted
    assert!(d.evict_expired(100).is_empty());
    // past the window the silent subscriber is reclaimed
    let evicted = d.evict_expired(101);
    assert_eq!(evicted, vec![id]);
    assert!(d.deliver(&quote("AAPL")).is_empty());
}

#[test]
fn test_ping_refreshes_keepalive() {
    let mut d = Dispatcher::new(100);
    let id = d.register(request(9000, &["AAPL"]), 0);
    let peer = SocketAddress::v4(127, 0, 0, 1, 9000);

    d.observe_ping(&peer, b"PING", 90);
    assert!(d.evict_expired(150).is_empty());

    // a payload that is not exactly PING is ignored
    d.observe_ping(&peer, b"PONG", 200);
    // a PING from an unknown endpoint is ignored
    d.observe_ping(&SocketAddress::v4(10, 0, 0, 1, 9000), b"PING", 200);
    let evicted = d.evict_expired(191);
    assert_eq!(evicted, vec![id]);
}

#[test]
fn test_remove_subscriber() {
    let mut d = Dispatcher::new(5_000);
    let a = d.register(request(9000, &["AAPL"]), 0);
    let b = d.register(request(9001, &["AAPL"]), 0);
    assert!(d.remove_subscriber(a));
    assert!(!d.remove_subscriber(a));
    assert_eq!(d.deliver(&quote("AAPL")), vec![b]);
}

#[test]
fn test_shutdown_drains_directory() {
    let mut d = Dispatcher::new(5_000);
    let a = d.register(request(9000, &["AAPL"]), 0);
    let b = d.register(request(9001, &["MSFT"]), 0);
    let ids = d.shutdown();
    assert_eq!(ids, vec![a, b]);
    assert!(d.deliver(&quote("AAPL")).is_empty());
}

#[test]
fn test_udp_command_carries_request() {
    let cmd = UdpCommand::AddClient(request(9000, &["AAPL"]));
    match cmd {
        UdpCommand::AddClient(req) => assert_eq!(req.tickers, vec!["AAPL"]),
        UdpCommand::Shutdown => panic!("expected an AddClient command"),
    }
}
