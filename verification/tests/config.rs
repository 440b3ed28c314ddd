use devnet_mempool::config::{MempoolConfig, MempoolOrdering};

#[test]
fn built_in_policy_names_preserve_configuration_serialization() {
    // A policy name is serialized as its plain string.
    assert_eq!(serde_json::to_string(MempoolOrdering::fifo().as_str()).unwrap(), r#""fifo""#);
    assert_eq!(serde_json::to_string(MempoolOrdering::starknet().as_str()).unwrap(), r#""starknet""#);
    assert_eq!(serde_json::to_string(MempoolOrdering::random().as_str()).unwrap(), r#""random""#);
    let parsed: String = serde_json::from_str(r#""fifo""#).unwrap();
    assert_eq!(MempoolOrdering::parse(&parsed).unwrap(), MempoolOrdering::fifo());
}

#[test]
fn policy_names_are_validated() {
    assert!(MempoolOrdering::parse("newest-first_2").is_ok());
    assert!(MempoolOrdering::parse("").is_err());
    assert!(MempoolOrdering::parse("Fifo").is_err());
    assert!(MempoolOrdering::parse("a b").is_err());
    assert!(MempoolOrdering::parse("é").is_err());
}

#[test]
fn default_configuration() {
    let config = MempoolConfig::default();
    assert_eq!(config.ordering.as_str(), "fifo");
    assert_eq!(config.random_seed, 0);
    assert_eq!(config.max_transactions_per_block, 500);
    assert_eq!(MempoolOrdering::default(), MempoolOrdering::fifo());
}
