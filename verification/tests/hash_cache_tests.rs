use mcstarter::cache::{check_fetched_artifact, CacheDir};
use mcstarter::errors::McError;
use mcstarter::hash::hash_bytes;
use sha2::Digest;

#[test]
fn digest_is_lowercase_hex_sha256() {
    let bytes = b"abc".to_vec();
    let digest = hash_bytes(&bytes);
    assert_eq!(
        digest,
        "ba7816bf8f01cfea414140de5dae2223b00361a396177a9cb410ff61f20015ad"
    );
    assert_eq!(digest, hex::encode(sha2::Sha256::digest(&bytes)));
    assert_eq!(digest.len(), 64);
}

#[test]
fn digest_of_empty_input() {
    let digest = hash_bytes(&Vec::new());
    assert_eq!(
        digest,
        "e3b0c44298fc1c149afbf4c8996fb92427ae41e4649b934ca495991b7852b855"
    );
}

#[test]
fn integrity_check_accepts_exact_digest_only() {
    let name = "economy".to_string();
    let bytes = b"abc".to_vec();
    let good = hash_bytes(&bytes);
    assert!(check_fetched_artifact(&name, &bytes, &good).is_ok());
    let bad = "00".repeat(32);
    assert_eq!(
        check_fetched_artifact(&name, &bytes, &bad).unwrap_err(),
        McError::HashMismatch("economy".to_string())
    );
}

#[test]
fn ensure_twice_performs_exactly_one_fetch() {
    let mut cache = CacheDir::new();
    let name = "core".to_string();
    let payload = b"core bytes".to_vec();
    let digest = hash_bytes(&payload);

    let mut fetches = 0;
    let (fetched, outcome) = cache.ensure_artifact(&name, &digest, &payload);
    if fetched {
        fetches += 1;
    }
    assert!(outcome.is_ok());
    assert!(cache.has(&digest));

    let (fetched, outcome) = cache.ensure_artifact(&name, &digest, &payload);
    if fetched {
        fetches += 1;
    }
    assert!(outcome.is_ok());
    assert_eq!(fetches, 1);
}

#[test]
fn hash_mismatch_is_rejected_and_stores_nothing() {
    let mut cache = CacheDir::new();
    let name = "economy".to_string();
    let payload = b"tampered".to_vec();
    let pinned = "11".repeat(32);

    let (fetched, outcome) = cache.ensure_artifact(&name, &pinned, &payload);
    assert!(fetched);
    assert_eq!(
        outcome.unwrap_err(),
        McError::HashMismatch("economy".to_string())
    );
    assert!(!cache.has(&pinned));
}
