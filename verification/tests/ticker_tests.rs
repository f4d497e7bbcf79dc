use quote_stream::errors::QuoteError;
use quote_stream::tickers::{load_tickers, valid_tickers};

#[test]
fn test_load_tickers_filters_and_uppercases() {
    let contents = "aapl\n  msft \n\nTsLa\n";
    let tickers = load_tickers(contents).expect("load tickers");
    assert_eq!(tickers, vec!["AAPL", "MSFT", "TSLA"]);
}

#[test]
fn cli_test_load_tickers_empty_file() {
    let err = load_tickers("").expect_err("should fail");
    assert!(matches!(err, QuoteError::ConfigError { .. }));
}

#[test]
fn test_load_tickers_valid() {
    let contents = "AAPL\n  MSFT \n\ntsla\n";
    let tickers = load_tickers(contents).expect("load tickers");
    assert_eq!(tickers, vec!["AAPL", "MSFT", "TSLA"]);
}

#[test]
fn config_test_load_tickers_empty_file() {
    let err = load_tickers("\n  \n\t\n").expect_err("should fail");
    match err {
        QuoteError::ConfigError { message, .. } => {
            assert!(message.contains("contained no symbols"));
        }
        _ => panic!("expected a configuration error"),
    }
}

#[test]
fn test_load_tickers_idempotent() {
    let first = load_tickers("aapl\nAAPL\n").expect("load");
    assert_eq!(first, vec!["AAPL", "AAPL"]);
    let again = load_tickers(&first.join("\n")).expect("reload");
    assert_eq!(again, first);
}

#[test]
fn test_valid_tickers() {
    assert!(valid_tickers(&vec!["AAPL".to_string(), "X9".to_string()]));
    assert!(!valid_tickers(&vec!["aapl".to_string()]));
    assert!(!valid_tickers(&vec!["".to_string()]));
    assert!(!valid_tickers(&vec!["AVERYLONGTICKER12".to_string()]));
}
