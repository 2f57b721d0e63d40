use orderbook_aggregator::config::{validate_symbol, Config};

#[test]
fn validate_symbol_normalizes_to_lowercase() {
    for (input, expected) in [("ETHBTC", "ethbtc"), ("EthBtc", "ethbtc"), ("abc123", "abc123")] {
        assert_eq!(validate_symbol(input).unwrap(), expected, "input: {input}");
    }
}

#[test]
fn validate_symbol_rejects_invalid() {
    for (input, label) in [
        ("", "empty"),
        ("eth-btc", "hyphen"),
        ("eth/btc", "slash"),
        ("eth btc", "space"),
        ("eth.btc", "dot"),
    ] {
        assert!(validate_symbol(input).is_err(), "expected Err for {label}: {input:?}");
    }
}

#[test]
fn validate_symbol_says_what_is_wrong() {
    assert_eq!(validate_symbol(""), Err("symbol cannot be empty".to_string()));
    assert_eq!(
        validate_symbol("eth-btc"),
        Err("symbol must be alphanumeric, got: eth-btc".to_string())
    );
    assert_eq!(
        validate_symbol("\u{e9}thbtc"),
        Err("symbol must be alphanumeric, got: \u{e9}thbtc".to_string())
    );
}

#[test]
fn validate_symbol_lowers_every_letter() {
    assert_eq!(
        validate_symbol("ABCDEFGHIJKLMNOPQRSTUVWXYZ0123456789").unwrap(),
        "abcdefghijklmnopqrstuvwxyz0123456789"
    );
    for edge in ["@", "[", "`", "{", "/", ":"] {
        assert!(validate_symbol(edge).is_err(), "input: {edge}");
    }
}

#[test]
fn validate_symbol_is_idempotent() {
    let once = validate_symbol("EthBtc9").unwrap();
    assert_eq!(validate_symbol(&once).unwrap(), once);
}

#[test]
fn default_configuration() {
    let config = Config::default();
    assert_eq!(config.symbol, "ethbtc");
    assert_eq!(config.port, 50051);
    assert_eq!(config.metrics_port, 9090);
}
