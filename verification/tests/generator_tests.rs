use quote_stream::generator::QuoteGenerator;

#[test]
fn test_next_price_within_bounds() {
    let tickers = vec!["AAPL".to_string()];
    let mut generator = QuoteGenerator::new(tickers, &Vec::new(), None);

    for _ in 0..50 {
        let price = generator.next_price("AAPL");
        assert!(price >= 1);
    }
}

#[test]
fn test_volume_ranges() {
    let tickers = vec!["AAPL".to_string(), "XYZ".to_string()];
    let generator = QuoteGenerator::new(tickers, &Vec::new(), None);

    let popular_volume = generator.next_volume("AAPL");
    assert!((1_000..6_001).contains(&popular_volume));

    let regular_volume = generator.next_volume("XYZ");
    assert!((100..1_101).contains(&regular_volume));
}

#[test]
fn test_initial_prices_seeded() {
    let tickers = vec!["AAPL".to_string(), "MSFT".to_string()];
    let seeds = vec![("AAPL".to_string(), 15000u64)];
    let generator = QuoteGenerator::new(tickers, &seeds, Some(50));
    assert_eq!(generator.price_of("AAPL"), Some(15000));
    assert_eq!(generator.price_of("MSFT"), Some(10000));
    assert_eq!(generator.price_of("TSLA"), None);
    assert_eq!(generator.interval_ms(), 50);
}

#[test]
fn test_price_step_stays_close() {
    let tickers = vec!["AAPL".to_string()];
    let mut generator = QuoteGenerator::new(tickers, &Vec::new(), None);
    let before = generator.price_of("AAPL").unwrap();
    let after = generator.next_price("AAPL");
    // one step moves the price by at most two percent, rounded up
    let low = before - before / 50 - 1;
    let high = before + before / 50 + 1;
    assert!(low <= after && after <= high);
    assert_eq!(generator.price_of("AAPL"), Some(after));
}

#[test]
fn test_tick_emits_one_quote_per_ticker() {
    let tickers = vec!["AAPL".to_string(), "XYZ".to_string(), "AAPL".to_string()];
    let mut generator = QuoteGenerator::new(tickers.clone(), &Vec::new(), Some(5));
    let quotes = generator.tick();
    assert_eq!(quotes.len(), 3);
    for (i, q) in quotes.iter().enumerate() {
        assert_eq!(q.ticker, tickers[i]);
        assert!(q.price_cents >= 1);
    }
}
