use quote_stream::codec::{decode_quote, encode_quote, handle_payload};
use quote_stream::quote::StockQuote;

fn quote(ticker: &str, price_cents: u64, volume: u32, timestamp: i64) -> StockQuote {
    StockQuote { ticker: ticker.to_string(), price_cents, volume, timestamp }
}

#[test]
fn test_stock_quote_json_roundtrip() {
    let q = quote("AAPL", 15025, 3_500, 1_699_564_800_000);

    let json = encode_quote(&q);
    assert_eq!(
        json,
        br#"{"ticker":"AAPL","price":150.25,"volume":3500,"timestamp":1699564800000}"#.to_vec()
    );

    let restored = decode_quote(&json).expect("deserialize quote");
    assert_eq!(restored, q);
}

#[test]
fn test_encode_drops_trailing_zero() {
    assert_eq!(encode_quote(&quote("A", 15020, 1, 2)), b"{\"ticker\":\"A\",\"price\":150.2,\"volume\":1,\"timestamp\":2}".to_vec());
    assert_eq!(encode_quote(&quote("A", 15000, 1, 2)), b"{\"ticker\":\"A\",\"price\":150.0,\"volume\":1,\"timestamp\":2}".to_vec());
    assert_eq!(encode_quote(&quote("A", 1, 1, 2)), b"{\"ticker\":\"A\",\"price\":0.01,\"volume\":1,\"timestamp\":2}".to_vec());
}

#[test]
fn test_encode_negative_timestamp_roundtrip() {
    let q = quote("MSFT9", 12, 0, -12345);
    let json = encode_quote(&q);
    assert_eq!(json, b"{\"ticker\":\"MSFT9\",\"price\":0.12,\"volume\":0,\"timestamp\":-12345}".to_vec());
    assert_eq!(decode_quote(&json).expect("decode"), q);
}

#[test]
fn test_encoder_output_is_json() {
    let q = quote("TSLA", 25057, 123, 1_699_564_800_001);
    let json = encode_quote(&q);
    let v: serde_json::Value = serde_json::from_slice(&json).expect("valid JSON");
    assert_eq!(v["ticker"], serde_json::Value::String("TSLA".to_string()));
    assert_eq!(v["volume"].as_u64(), Some(123));
    assert_eq!(v["timestamp"].as_i64(), Some(1_699_564_800_001));
    assert!((v["price"].as_f64().unwrap() - 250.57).abs() < 1e-9);
}

#[test]
fn test_decode_accepts_two_digit_fraction_for_one_digit_value() {
    let q = decode_quote(b"{\"ticker\":\"A\",\"price\":150.20,\"volume\":1,\"timestamp\":2}")
        .expect("decode");
    assert_eq!(q.price_cents, 15020);
}

#[test]
fn test_decode_rejects_bad_shapes() {
    assert!(decode_quote(b"").is_none());
    assert!(decode_quote(b"{\"ticker\":\"\",\"price\":1.0,\"volume\":1,\"timestamp\":2}").is_none());
    assert!(decode_quote(b"{\"ticker\":\"aapl\",\"price\":1.0,\"volume\":1,\"timestamp\":2}").is_none());
    assert!(decode_quote(b"{\"ticker\":\"A\",\"price\":1,\"volume\":1,\"timestamp\":2}").is_none());
    assert!(decode_quote(b"{\"ticker\":\"A\",\"price\":1.0,\"volume\":4294967296,\"timestamp\":2}").is_none());
    assert!(decode_quote(b"{\"ticker\":\"A\",\"price\":1.0,\"volume\":1,\"timestamp\":2}x").is_none());
}

#[test]
fn test_handle_payload_logs_valid_quote() {
    let q = StockQuote::new("AAPL".to_string(), 15012, 1_000);
    let payload = encode_quote(&q);
    assert!(handle_payload(&payload).is_ok());
}

#[test]
fn test_handle_payload_rejects_invalid_json() {
    let err = handle_payload(br#"{"ticker": 123}"#).expect_err("should fail");
    assert!(err.contains("Failed to parse quote JSON"));
}
