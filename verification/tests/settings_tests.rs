//! Settings defaults and secret derivation.

use syncstorage::settings::{Secrets, ServerLimits, Settings};

#[test]
fn default_settings() {
    let s = Settings::default();
    assert!(!s.debug);
    assert_eq!(s.port, 8000);
    assert_eq!(s.database_url, "mysql://root@127.0.0.1/syncstorage");
    assert!(s.database_pool_max_size.is_none());
    assert_eq!(s.limits, ServerLimits::default());
    assert!(s.master_secret.master_secret.is_empty());
}

#[test]
fn default_limits() {
    let l = ServerLimits::default();
    assert_eq!(l.max_post_bytes, 2 * 1024 * 1024);
    assert_eq!(l.max_post_records, 100);
    assert_eq!(l.max_record_payload_bytes, 2 * 1024 * 1024);
    assert_eq!(l.max_request_bytes, 2 * 1024 * 1024 + 4 * 1024);
    assert_eq!(l.max_total_bytes, 100 * 2 * 1024 * 1024);
    assert_eq!(l.max_total_records, 100 * 100);
}

#[test]
fn secrets_derive_signing_secret() {
    let s = Secrets::new("the master secret");
    assert_eq!(s.master_secret, b"the master secret".to_vec());
    // The derivation must actually transform its input: not zero, not the
    // master secret, and stable across calls.
    assert_ne!(s.signing_secret, [0u8; 32]);
    assert_ne!(&s.signing_secret[..17], s.master_secret.as_slice());
    let again = Secrets::new("the master secret");
    assert_eq!(s.signing_secret, again.signing_secret);
    let other = Secrets::new("another secret");
    assert_ne!(s.signing_secret, other.signing_secret);
}

#[test]
fn default_secrets_are_empty() {
    let s = Secrets::default();
    assert!(s.master_secret.is_empty());
    assert_eq!(s.signing_secret, [0u8; 32]);
}
