use sov_vault::config::{parse_size, Config, ConfigError, PathOverrides, SizeError};
use sov_vault::util::{civil_from_days, ip4_from_string, ip4_to_string, ts_to_rfc3339};

#[test]
fn parse_size_basic() {
    assert_eq!(parse_size("256MB").unwrap(), 256 * 1024 * 1024);
    assert_eq!(parse_size("64GB").unwrap(), 64u64 * 1024 * 1024 * 1024);
    assert_eq!(parse_size("1024").unwrap(), 1024);
    assert_eq!(parse_size("512B").unwrap(), 512);
    assert_eq!(parse_size(" 1KB ").unwrap(), 1024);
}

#[test]
fn parse_size_errors() {
    assert!(parse_size("").is_err());
    assert!(parse_size("abc").is_err());
    assert!(parse_size("18446744073709551616").is_err());
    assert!(parse_size("99999999999999999999GB").is_err());
}

#[test]
fn size_errors_are_told_apart() {
    assert_eq!(parse_size("   "), Err(SizeError::Empty));
    assert_eq!(parse_size("KB"), Err(SizeError::Malformed));
    assert_eq!(parse_size("1 0MB"), Err(SizeError::Malformed));
    assert_eq!(parse_size("-1"), Err(SizeError::Malformed));
    assert_eq!(parse_size("256mb"), Err(SizeError::Malformed));
    assert_eq!(parse_size("17179869184GB"), Err(SizeError::Overflow));
    assert_eq!(parse_size("+7 KB"), Ok(7168));
    assert_eq!(parse_size("\u{3000}12\u{a0}"), Ok(12));
}

#[test]
fn default_config_loads_and_validates() {
    let cfg = Config::load(None, &PathOverrides::default(), &PathOverrides::default()).unwrap();
    assert_eq!(cfg.ingest.batch_size, 10000);
    assert_eq!(cfg.analysis.qr_pending_budget, 4096);
    assert_eq!(cfg.lmdb_map_size_bytes().unwrap(), 64u64 * 1024 * 1024 * 1024);
    assert_eq!(cfg.pending_budget_bytes().unwrap(), 256 * 1024 * 1024);
    assert_eq!(cfg.conn_pending_cap_bytes().unwrap(), 16 * 1024 * 1024);
}

#[test]
fn precedence_cli_over_env_over_toml() {
    let none = PathOverrides::default();
    let file = || {
        let mut c = Config::default();
        c.storage.root = "/var/lib/sovvault".into();
        Some(c)
    };
    let cfg = Config::load(file(), &none, &none).unwrap();
    assert_eq!(cfg.storage.root, "/var/lib/sovvault");

    let over = PathOverrides { root: Some("/tmp/sovvault-test".into()), hot_dir: Some("ht".into()), ..Default::default() };
    let cfg = Config::load(file(), &none, &over).unwrap();
    assert_eq!(cfg.storage.root, "/tmp/sovvault-test");
    assert_eq!(cfg.storage.hot_dir, "ht");

    let env = PathOverrides { lmdb_map_size: Some("8GB".into()), hot_dir: Some("".into()), ..Default::default() };
    let cfg = Config::load(file(), &env, &none).unwrap();
    assert_eq!(cfg.storage.lmdb_map_size, "8GB");
    assert_eq!(cfg.storage.hot_dir, "hot");
    let over = PathOverrides { lmdb_map_size: Some("16GB".into()), ..Default::default() };
    let cfg = Config::load(file(), &env, &over).unwrap();
    assert_eq!(cfg.storage.lmdb_map_size, "16GB");
}

#[test]
fn faulty_settings_are_refused() {
    let none = PathOverrides::default();
    let empty = PathOverrides { lmdb_map_size: Some("".into()), ..Default::default() };
    assert_eq!(Config::load(None, &none, &empty).err(), Some(ConfigError::EmptyMapSize));
    let mut c = Config::default();
    c.ingest.batch_size = 0;
    c.analysis.qr_pending_budget = 0;
    assert_eq!(c.validate(), Err(ConfigError::ZeroBatchSize));
    c.ingest.batch_size = 1;
    assert_eq!(c.validate(), Err(ConfigError::ZeroPendingBudget));
    c.analysis.qr_pending_budget = 1;
    assert_eq!(c.validate(), Ok(()));
}

#[test]
fn paths_join_under_the_root() {
    let mut c = Config::default();
    assert_eq!(c.hot_dir(Some("/work")), "/var/lib/sovvault/hot");
    assert_eq!(c.warm_dir(None), "/var/lib/sovvault/warm");
    c.storage.root = "data".into();
    assert_eq!(c.ledger_path(Some("/work/")), "/work/data/ledger.db");
    assert_eq!(c.lmdb_dir(None), "data/qridx");
    c.storage.lmdb_dir = "/fast/qridx".into();
    assert_eq!(c.lmdb_dir(Some("/work")), "/fast/qridx");
}

#[test]
fn ip4_roundtrip() {
    assert_eq!(ip4_from_string("192.168.0.1"), Some(0xC0A8_0001));
    assert_eq!(ip4_to_string(0xC0A8_0001), "192.168.0.1");
    assert_eq!(ip4_to_string(0x0A00_0002), "10.0.0.2");
    assert!(ip4_from_string("999.1.1.1").is_none());
    assert!(ip4_from_string("1.2.3").is_none());
}

#[test]
fn odd_addresses() {
    assert_eq!(ip4_from_string("1.2.3.4.5"), None);
    assert_eq!(ip4_from_string("1..3.4"), None);
    assert_eq!(ip4_from_string("+1.2.3.4"), Some(0x0102_0304));
    assert_eq!(ip4_from_string("001.2.3.4"), Some(0x0102_0304));
    assert_eq!(ip4_from_string(" 1.2.3.4"), None);
    for ip in [0u32, 1, 0xFFFF_FFFF, 0x7F00_0001, 0x0A0B_0C0D] {
        assert_eq!(ip4_from_string(&ip4_to_string(ip)), Some(ip));
    }
}

#[test]
fn ts_format() {
    assert_eq!(ts_to_rfc3339(0), "1970-01-01T00:00:00.000000000Z");
    assert_eq!(ts_to_rfc3339(946_684_800 * 1_000_000_000), "2000-01-01T00:00:00.000000000Z");
}

#[test]
fn dates_across_leap_years() {
    assert_eq!(ts_to_rfc3339(951_782_400 * 1_000_000_000 + 42), "2000-02-29T00:00:00.000000042Z");
    assert_eq!(ts_to_rfc3339(1_700_000_000_123_456_789), "2023-11-14T22:13:20.123456789Z");
    assert_eq!(ts_to_rfc3339(u64::MAX), "2554-07-21T23:34:33.709551615Z");
    assert_eq!(civil_from_days(59), (1970, 3, 1));
    assert_eq!(civil_from_days(789), (1972, 2, 29));
    assert_eq!(civil_from_days(47540), (2100, 2, 28));
    assert_eq!(civil_from_days(47541), (2100, 3, 1));
}
