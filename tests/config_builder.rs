//! Tests of the configuration and its builder.

use atlaskv::config::{Config, WalSyncStrategy};
use atlaskv::AtlasError;

#[test]
fn test_config_default() {
    let config = Config::default();

    assert_eq!(config.data_dir.as_str(), "./atlaskv_data");
    assert_eq!(config.memtable_size_limit, 64 * 1024 * 1024); // 64 MB
    assert_eq!(config.listen_addr, "127.0.0.1:6379");
    assert_eq!(config.max_connections, 1024);
    assert_eq!(config.read_timeout_ms, 5000);
    assert_eq!(config.write_timeout_ms, 5000);
}

#[test]
fn test_config_builder() {
    let config = Config::builder()
        .data_dir("/custom/path")
        .wal_sync_strategy(WalSyncStrategy::EveryWrite)
        .memtable_size_limit(1024)
        .listen_addr("0.0.0.0:8080")
        .max_connections(100)
        .read_timeout_ms(1000)
        .write_timeout_ms(2000)
        .build();

    assert_eq!(config.data_dir.as_str(), "/custom/path");
    assert!(matches!(config.wal_sync_strategy, WalSyncStrategy::EveryWrite));
    assert_eq!(config.memtable_size_limit, 1024);
    assert_eq!(config.listen_addr, "0.0.0.0:8080");
    assert_eq!(config.max_connections, 100);
    assert_eq!(config.read_timeout_ms, 1000);
    assert_eq!(config.write_timeout_ms, 2000);
}

#[test]
fn test_config_builder_default_values() {
    // Builder should start with default values
    let config = Config::builder().build();
    let default_config = Config::default();

    assert_eq!(config.data_dir, default_config.data_dir);
    assert_eq!(config.memtable_size_limit, default_config.memtable_size_limit);
}


#[test]
fn builder_keeps_unset_fields() {
    let config = Config::builder().max_connections(7).build();
    assert_eq!(config.max_connections, 7);
    assert_eq!(config.listen_addr, "127.0.0.1:6379");
    assert!(matches!(config.wal_sync_strategy, WalSyncStrategy::EveryNEntries { count: 100 }));
}

#[test]
fn error_descriptions() {
    assert_eq!(AtlasError::KeyNotFound.to_string(), "Key not found");
    assert_eq!(AtlasError::Protocol("bad frame".to_string()).to_string(), "Protocol error: bad frame");
    assert_eq!(AtlasError::Storage("x".to_string()).to_string(), "Storage error: x");
    assert_eq!(AtlasError::Io("eof".to_string()).to_string(), "IO error: eof");
}
