//! File-level metadata.

use valkey_rdb_tools::types::RdbMetadata;

fn make_metadata(pairs: &[(&str, &str)]) -> RdbMetadata {
    let mut m = RdbMetadata::default();
    for (k, v) in pairs {
        m.aux.insert(k.to_string(), v.to_string());
    }
    m
}

#[test]
fn test_server_version_valkey() {
    let m = make_metadata(&[("valkey-ver", "9.0.1")]);
    assert_eq!(m.server_version(), Some("9.0.1"));
}

#[test]
fn test_server_version_redis_fallback() {
    let m = make_metadata(&[("redis-ver", "7.2.4")]);
    assert_eq!(m.server_version(), Some("7.2.4"));
}

#[test]
fn test_server_version_valkey_takes_precedence() {
    let m = make_metadata(&[("valkey-ver", "9.0.0"), ("redis-ver", "7.2.4")]);
    assert_eq!(m.server_version(), Some("9.0.0"));
}

#[test]
fn test_server_version_missing() {
    let m = RdbMetadata::default();
    assert_eq!(m.server_version(), None);
}

#[test]
fn test_ctime() {
    let m = make_metadata(&[("ctime", "1700000000")]);
    assert_eq!(m.ctime(), Some(1_700_000_000));
}

#[test]
fn test_ctime_invalid() {
    let m = make_metadata(&[("ctime", "not_a_number")]);
    assert_eq!(m.ctime(), None);
}

#[test]
fn test_used_mem() {
    let m = make_metadata(&[("used-mem", "1073741824")]);
    assert_eq!(m.used_mem(), Some(1_073_741_824));
}

#[test]
fn test_repl_id() {
    let m = make_metadata(&[("repl-id", "abc123def456")]);
    assert_eq!(m.repl_id(), Some("abc123def456"));
}

#[test]
fn test_repl_offset() {
    let m = make_metadata(&[("repl-offset", "-1")]);
    assert_eq!(m.repl_offset(), Some(-1));
}

#[test]
fn test_repl_offset_missing() {
    let m = RdbMetadata::default();
    assert_eq!(m.repl_offset(), None);
}
