use moonblokz_blockchain::chain_config::{
    ChainConfigError, ChainConfigTrait, FixedChainConfig, INITIAL_CHAIN_CONFIG_BYTES_CAPACITY,
};

#[test]
fn fixed_returns_expected_constants() {
    let cfg = FixedChainConfig::new();
    assert_eq!(cfg.current_inter_block_interval_ms(), 60_000);
    assert_eq!(cfg.current_grace_period_window_ms(), 30_000);
    assert_eq!(cfg.current_block_size_limit(), 2016);
    assert_eq!(cfg.current_max_utxo_outputs(), 255);
    assert_eq!(cfg.current_max_aggregated_signatures(), 50);
    assert_eq!(cfg.current_vote_scale().get(), 1000);
    assert_eq!(cfg.current_vote_interest(), 5);
    assert!(cfg.is_durable_locked());
    assert_eq!(cfg.parent_recovery_per_head_retry_interval_ms(), 120_000);
    assert_eq!(cfg.parent_recovery_min_emit_interval_ms(), 10_000);
}

#[test]
fn fixed_stores_initial_chain_config_bytes() {
    let mut cfg = FixedChainConfig::new();
    let bytes = [0xA5, 0xC0, 0x01, 0x54];

    cfg.store_initial_chain_config_bytes(&bytes).unwrap();

    assert_eq!(cfg.initial_chain_config_bytes(), Some(&bytes[..]));
}

#[test]
fn fixed_stores_empty_initial_chain_config_as_present() {
    let mut cfg = FixedChainConfig::new();

    cfg.store_initial_chain_config_bytes(&[]).unwrap();

    assert_eq!(cfg.initial_chain_config_bytes(), Some(&[][..]));
}

#[test]
fn fixed_rejects_second_initial_chain_config_store() {
    let mut cfg = FixedChainConfig::new();
    let first = [0xA5, 0x01];
    let second = [0x5A, 0x02];

    cfg.store_initial_chain_config_bytes(&first).unwrap();
    let result = cfg.store_initial_chain_config_bytes(&second);

    assert!(matches!(
        result,
        Err(ChainConfigError::InitialChainConfigAlreadyStored)
    ));
    assert_eq!(cfg.initial_chain_config_bytes(), Some(&first[..]));
}

#[test]
fn fixed_rejects_oversized_initial_chain_config_bytes() {
    let mut cfg = FixedChainConfig::new();
    let oversized = [0u8; INITIAL_CHAIN_CONFIG_BYTES_CAPACITY + 1];

    let result = cfg.store_initial_chain_config_bytes(&oversized);

    assert!(matches!(
        result,
        Err(ChainConfigError::InitialChainConfigTooLarge)
    ));
    assert!(cfg.initial_chain_config_bytes().is_none());
}
