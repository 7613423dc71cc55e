use colink_core::codec::{build_key_path, parse_dec, parse_key_path, u64_to_dec};
use colink_core::crypto::{digest32, fnv_bytes, hex_encode, parse_key_material, FNV_INIT};
use colink_core::errors::CoreError;
use colink_core::kv::UserStore;
use colink_core::token::{
    authorize, generate_token, issue_token, verify_token, Privilege,
};

#[test]
fn decimal_rendering_and_parsing() {
    assert_eq!(u64_to_dec(0), b"0".to_vec());
    assert_eq!(u64_to_dec(42), b"42".to_vec());
    assert_eq!(u64_to_dec(18446744073709551615), b"18446744073709551615".to_vec());
    assert_eq!(parse_dec(b"42"), Some(42));
    assert_eq!(parse_dec(b"0"), Some(0));
    assert_eq!(parse_dec(b""), None);
    assert_eq!(parse_dec(b"4a"), None);
    assert_eq!(parse_dec(b"18446744073709551616"), None);
}

#[test]
fn key_path_round_trip() {
    let path = build_key_path(b"ab12", b"users:ab12:x", 7);
    assert_eq!(path, b"ab12::users:ab12:x@7".to_vec());
    let (user, key, version) = parse_key_path(&path).unwrap();
    assert_eq!(user, b"ab12".to_vec());
    assert_eq!(key, b"users:ab12:x".to_vec());
    assert_eq!(version, 7);
    assert!(parse_key_path(b"no-separator@3").is_none());
    assert!(parse_key_path(b"a::b").is_none());
    assert!(parse_key_path(b"a::b@x1").is_none());
}

#[test]
fn hex_wrapper_spells_bytes() {
    // Would fail if the encoder handed its input back unchanged.
    assert_eq!(hex_encode(&[0xab, 0x01]), b"ab01".to_vec());
}

#[test]
fn key_material_derives_host_identity() {
    let jwt_hex: Vec<u8> = b"aa".repeat(32);
    let sk = [1u8; 32];
    let priv_hex: Vec<u8> = hex::encode(sk).into_bytes();
    let km = parse_key_material(&jwt_hex, &priv_hex).unwrap();
    assert_eq!(km.jwt_secret, vec![0xaa; 32]);
    assert_eq!(km.secret_key, sk.to_vec());
    let key = secp256k1::SecretKey::from_secret_bytes(sk).unwrap();
    let pk = secp256k1::PublicKey::from_secret_key(&key).serialize();
    assert_eq!(km.public_key, pk.to_vec());
    assert_eq!(km.host_id, hex::encode(pk).into_bytes());
}

#[test]
fn folding_is_seeded_and_digest_is_wide() {
    assert_eq!(fnv_bytes(FNV_INIT, b""), FNV_INIT);
    let d1 = digest32(b"abc");
    let d2 = digest32(b"abc");
    let d3 = digest32(b"abd");
    assert_eq!(d1.len(), 32);
    assert_eq!(d1, d2);
    assert_ne!(d1, d3);
}

#[test]
fn token_refresh_expires() {
    // A host-issued token refreshed to a short expiry is dead past it.
    let secret = [7u8; 32];
    let t0: u64 = 1000;
    let host = issue_token(&secret, b"host", Privilege::Host, t0, t0 + 3600);
    let user = generate_token(&secret, &host, Privilege::User, t0 + 60, t0).unwrap();
    assert_eq!(user.expiry, t0 + 60);
    assert!(verify_token(&secret, &user, t0 + 30).is_ok());
    assert_eq!(verify_token(&secret, &user, t0 + 120).err(), Some(CoreError::Unauthenticated));
}

#[test]
fn token_privilege_only_narrows() {
    let secret = [7u8; 32];
    let user = issue_token(&secret, b"u1", Privilege::User, 0, 100);
    assert_eq!(
        generate_token(&secret, &user, Privilege::Host, 100, 10).err(),
        Some(CoreError::PermissionDenied)
    );
    let mut forged = issue_token(&secret, b"u1", Privilege::User, 0, 100);
    forged.tag = forged.tag.wrapping_add(1);
    assert_eq!(
        generate_token(&secret, &forged, Privilege::User, 100, 10).err(),
        Some(CoreError::Unauthenticated)
    );
}

#[test]
fn authorize_checks_subject() {
    let secret = [9u8; 32];
    let alice = issue_token(&secret, b"alice", Privilege::User, 0, 100);
    assert!(authorize(&secret, &alice, 10, false, true, true, b"alice").is_ok());
    assert_eq!(
        authorize(&secret, &alice, 10, false, true, true, b"bob").err(),
        Some(CoreError::PermissionDenied)
    );
    let host = issue_token(&secret, b"host", Privilege::Host, 0, 100);
    assert!(authorize(&secret, &host, 10, false, true, true, b"bob").is_ok());
}

#[test]
fn kv_history_is_never_rewritten() {
    // create -> @1, update -> @2, delete -> @3; name reads see the latest
    // live payload, path reads see exactly what each version wrote.
    let mut store = UserStore::new();
    let e1 = store.create(b"users:alice:x", b"a").unwrap();
    assert_eq!(e1.version, 1);
    let e2 = store.update(b"users:alice:x", b"b").unwrap();
    assert_eq!(e2.version, 2);
    assert_eq!(store.read_version(b"users:alice:x", 1).unwrap().payload, b"a".to_vec());
    assert_eq!(store.read_name(b"users:alice:x").unwrap().payload, b"b".to_vec());
    let e3 = store.delete(b"users:alice:x").unwrap();
    assert_eq!(e3.version, 3);
    assert!(e3.tombstone);
    assert_eq!(store.read_name(b"users:alice:x").err(), Some(CoreError::NotFound));
    assert_eq!(store.read_version(b"users:alice:x", 1).unwrap().payload, b"a".to_vec());
}

#[test]
fn kv_create_semantics() {
    let mut store = UserStore::new();
    store.create(b"k", b"v").unwrap();
    assert_eq!(store.create(b"k", b"w").err(), Some(CoreError::AlreadyExists));
    store.delete(b"k").unwrap();
    // A tombstoned name can be created anew.
    let e = store.create(b"k", b"w").unwrap();
    assert_eq!(e.version, 3);
    assert_eq!(store.delete(b"gone").err(), Some(CoreError::NotFound));
}

#[test]
fn two_updates_allocate_distinct_versions() {
    let mut store = UserStore::new();
    let e1 = store.update(b"k", b"p1").unwrap();
    let e2 = store.update(b"k", b"p2").unwrap();
    assert!(e1.version < e2.version);
    assert_eq!(store.read_version(b"k", e1.version).unwrap().payload, b"p1".to_vec());
    assert_eq!(store.read_version(b"k", e2.version).unwrap().payload, b"p2".to_vec());
}
