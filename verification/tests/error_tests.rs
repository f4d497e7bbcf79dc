use quote_stream::errors::{ErrorLocation, QuoteError};

fn here() -> ErrorLocation {
    ErrorLocation { file: "lib.rs", line: 42, column: 7 }
}

#[test]
fn test_error_location_capture() {
    let quote_err = QuoteError::IoError {
        source: "network failure".to_string(),
        context: "Failed to connect".to_string(),
        location: here(),
    };

    match quote_err {
        QuoteError::IoError { location, .. } => {
            assert!(location.file.contains("lib.rs"));
            assert!(location.line > 0);
            assert!(location.column > 0);
        }
        _ => panic!("Expected IoError variant"),
    }
}

#[test]
fn test_error_display_includes_location() {
    let err = QuoteError::ParseError {
        message: "Invalid ticker format".to_string(),
        location: here(),
    };
    let display = err.display_string();

    assert!(display.contains("Parse error"));
    assert!(display.contains("Invalid ticker format"));
    assert!(display.contains("lib.rs"));
}

#[test]
fn test_error_display_exact() {
    let err = QuoteError::NetworkError {
        message: "down".to_string(),
        location: ErrorLocation { file: "x.rs", line: 3, column: 14 },
    };
    assert_eq!(err.display_string(), "Network error: down (x.rs:3:14)");

    let io = QuoteError::IoError {
        source: "disk full".to_string(),
        context: "Write failed".to_string(),
        location: ErrorLocation { file: "y.rs", line: 10, column: 2 },
    };
    assert_eq!(io.display_string(), "I/O error: Write failed (y.rs:10:2): disk full");
}

#[test]
fn test_config_error_creation() {
    let err = QuoteError::ConfigError {
        message: format!("Missing field: {}", "tcp_addr"),
        location: here(),
    };

    match err {
        QuoteError::ConfigError { message, .. } => {
            assert_eq!(message, "Missing field: tcp_addr");
        }
        _ => panic!("Expected ConfigError variant"),
    }
}

#[test]
fn test_serialization_error_creation() {
    let err = QuoteError::SerializationError {
        message: "Failed to serialize quote".to_string(),
        location: here(),
    };

    match err {
        QuoteError::SerializationError { message, .. } => {
            assert_eq!(message, "Failed to serialize quote");
        }
        _ => panic!("Expected SerializationError variant"),
    }
}

#[test]
fn test_network_error_creation() {
    let err = QuoteError::NetworkError {
        message: "Connection timeout".to_string(),
        location: here(),
    };

    match err {
        QuoteError::NetworkError { message, .. } => {
            assert_eq!(message, "Connection timeout");
        }
        _ => panic!("Expected NetworkError variant"),
    }
}

#[test]
fn test_invalid_command_error_creation() {
    let err = QuoteError::InvalidCommand {
        message: "Unknown command: STOP".to_string(),
        location: here(),
    };

    match err {
        QuoteError::InvalidCommand { message, .. } => {
            assert_eq!(message, "Unknown command: STOP");
        }
        _ => panic!("Expected InvalidCommand variant"),
    }
}

#[test]
fn test_error_source_for_io_error() {
    let quote_err = QuoteError::IoError {
        source: "disk full".to_string(),
        context: "Write failed".to_string(),
        location: here(),
    };

    assert!(quote_err.source().is_some());
}

#[test]
fn test_error_source_for_other_errors() {
    let err = QuoteError::ParseError { message: "Bad format".to_string(), location: here() };
    assert!(err.source().is_none());
}
