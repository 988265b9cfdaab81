use skie::config::{default_sync_path, join_path};
use skie::{AppConfig, FileID, NetworkConfig, SkieContext};

#[test]
fn file_id_text_is_hyphenated_lowercase() {
    let id = FileID::from_u128(0xa1a2a3a4b1b2c1c2d1d2d3d4d5d6d7d8);
    assert_eq!(id.to_string(), "a1a2a3a4-b1b2-c1c2-d1d2-d3d4d5d6d7d8");
    assert_eq!(FileID::from_u128(0).to_string(), "00000000-0000-0000-0000-000000000000");
}

#[test]
fn new_file_ids_differ() {
    let a = FileID::new();
    let b = FileID::new();
    assert_ne!(a, b);
    assert_eq!(a.to_string().len(), 36);
}

#[test]
fn sync_path_resolution() {
    assert_eq!(
        default_sync_path(Some("/home/u/Documents".into()), Some("/home/u".into())),
        "/home/u/Documents/Skie"
    );
    assert_eq!(default_sync_path(None, Some("/home/u/".into())), "/home/u/Skie");
    assert_eq!(default_sync_path(None, None), "Skie");
    assert_eq!(join_path("", "x"), "x");
}

#[test]
fn default_configuration() {
    let cfg = AppConfig::for_dirs("/d/Skie".into(), "/data/skie".into());
    assert_eq!(cfg.debounce_ms, 500);
    assert_eq!(cfg.engine_config.min_chunk_size, 2048);
    assert_eq!(cfg.engine_config.avg_chunk_size, 8192);
    assert_eq!(cfg.engine_config.max_chunk_size, 32768);
    assert_eq!(cfg.engine_config.num_threads, 8);
    assert_eq!(cfg.engine_config.channel_size, 64);
    assert_eq!(cfg.privacy_config.vault_folder, "/d/Skie/Vault");
    assert!(cfg.privacy_config.vault);
    let net = NetworkConfig::default();
    assert_eq!(net.server_url, "https://api.skie.ultrafinite.com");
    assert_eq!(net.max_upload_kbps, 0);
    let ctx = SkieContext::new(cfg);
    assert_eq!(ctx.app_config.sync_dir, "/d/Skie");
}
