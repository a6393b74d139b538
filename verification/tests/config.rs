use phonograph::config::{missing_extensions, DatabaseConfig, FileConfig, MissingExtensions, StorageEngineConfig};
use phonograph::error::Error;

#[test]
fn default_config() {
    let config = DatabaseConfig::default();
    assert_eq!(config.buffer_pool_frames, 1024);
    assert_eq!(config.page_size, 4096);
    assert!(config.extension_startup_check);
    assert_eq!(config.inference_cache_size, 64);
    assert_eq!(config.application_id, 0);
}

#[test]
fn builder_chaining() {
    let config = DatabaseConfig::default()
        .buffer_pool_frames(256)
        .page_size(8192)
        .extension_startup_check(false)
        .inference_cache_size(128)
        .application_id(42);
    assert_eq!(config.buffer_pool_frames, 256);
    assert_eq!(config.page_size, 8192);
    assert!(!config.extension_startup_check);
    assert_eq!(config.inference_cache_size, 128);
    assert_eq!(config.application_id, 42);
}

#[test]
fn buffer_pool_frames_clamps_minimum() {
    let config = DatabaseConfig::default().buffer_pool_frames(10);
    assert_eq!(config.buffer_pool_frames, 64);
}

#[test]
fn page_size_accepts_invalid_defers_to_validate() {
    let config = DatabaseConfig::default().page_size(1000);
    assert_eq!(config.page_size, 1000);
    assert!(config.validate().is_err());

    let config = DatabaseConfig::default().page_size(256);
    assert_eq!(config.page_size, 256);
    assert!(config.validate().is_err());
}

#[test]
fn validate_catches_invalid_page_size() {
    let config = DatabaseConfig { page_size: 1000, ..DatabaseConfig::default() };
    assert!(config.validate().is_err());
}

#[test]
fn validate_catches_small_page_size() {
    let config = DatabaseConfig { page_size: 256, ..DatabaseConfig::default() };
    assert!(config.validate().is_err());
}

#[test]
fn validate_accepts_valid_config() {
    let config = DatabaseConfig::default();
    assert!(config.validate().is_ok());
}

#[test]
fn validate_error_messages() {
    match DatabaseConfig::default().page_size(1000).validate() {
        Err(Error::Storage(e)) => assert_eq!(e.message, "page_size 1000 is not a power of two"),
        _ => panic!("expected a storage error"),
    }
    match DatabaseConfig::default().page_size(256).validate() {
        Err(Error::Storage(e)) => assert_eq!(e.message, "page_size 256 is less than minimum 512"),
        _ => panic!("expected a storage error"),
    }
    match DatabaseConfig::default().page_size(0).validate() {
        Err(Error::Storage(e)) => assert_eq!(e.message, "page_size 0 is not a power of two"),
        _ => panic!("expected a storage error"),
    }
    assert!(DatabaseConfig::default().page_size(512).validate().is_ok());
    assert!(DatabaseConfig::default().page_size(65536).validate().is_ok());
}

#[test]
fn buffer_pool_frames_keeps_larger_values() {
    assert_eq!(DatabaseConfig::default().buffer_pool_frames(64).buffer_pool_frames, 64);
    assert_eq!(DatabaseConfig::default().buffer_pool_frames(5000).buffer_pool_frames, 5000);
}

#[test]
fn storage_engine_config_default() {
    let c = StorageEngineConfig::default();
    assert_eq!(c.page_size, 4096);
    assert_eq!(c.buffer_pool_frames, 1024);
    assert_eq!(c.application_id, 0);
}

#[test]
fn missing_extensions_is_empty() {
    let m = MissingExtensions { constraint_validators: vec![], inference_rules: vec![] };
    assert!(m.is_empty());
    let m2 = MissingExtensions { constraint_validators: vec![], inference_rules: vec!["r".to_string()] };
    assert!(!m2.is_empty());
}

#[test]
fn file_config_builders() {
    let c = FileConfig::new("/tmp/phonograph.db");
    assert_eq!(c.path, std::path::PathBuf::from("/tmp/phonograph.db"));
    assert!(!c.read_only);
    assert_eq!(c.engine.page_size, 4096);
    let c = c.read_only(true).engine(DatabaseConfig::default().page_size(8192));
    assert!(c.read_only);
    assert_eq!(c.engine.page_size, 8192);
    assert_eq!(c.path, std::path::PathBuf::from("/tmp/phonograph.db"));
}

fn names(v: &[&str]) -> Vec<String> {
    v.iter().map(|s| s.to_string()).collect()
}

#[test]
fn missing_extensions_empty_when_none_persisted() {
    let m = missing_extensions(&[], &[], &names(&["c"]), &names(&["r"]));
    assert!(m.is_empty());
}

#[test]
fn missing_extensions_lists_unregistered_in_persisted_order() {
    let m = missing_extensions(
        &names(&["unique_name", "cardinality", "range"]),
        &names(&["subclass", "inverse"]),
        &names(&["cardinality"]),
        &names(&["inverse", "transitive"]),
    );
    assert_eq!(m.constraint_validators, names(&["unique_name", "range"]));
    assert_eq!(m.inference_rules, names(&["subclass"]));
    assert!(!m.is_empty());
}

#[test]
fn missing_extensions_none_when_all_registered() {
    let m = missing_extensions(&names(&["a", "b"]), &names(&["r"]), &names(&["b", "a"]), &names(&["r"]));
    assert!(m.is_empty());
}
