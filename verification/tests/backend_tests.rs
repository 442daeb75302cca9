use policy_cache::backend::{admits_write, ConnectError, RedisCache};

#[test]
fn admission_tracks_count_against_capacity() {
    let no_fields: Vec<Vec<u8>> = vec![];
    let one_field = vec![b"f".to_vec()];
    assert!(admits_write(&no_fields, 1));
    assert!(!admits_write(&one_field, 1));
    assert!(!admits_write(&no_fields, 0));
    assert!(admits_write(&one_field, 2));
}

#[test]
fn malformed_address_fails_construction() {
    let r: Result<RedisCache<bool>, ConnectError> = RedisCache::new("not an address");
    assert!(r.is_err());
}

#[test]
fn unreachable_store_fails_construction() {
    // nothing listens on this port, so transport setup is the error
    let r: Result<RedisCache<bool>, ConnectError> = RedisCache::new("redis://127.0.0.1:1/");
    match r {
        Ok(_) => panic!("construction should surface a connection error"),
        Err(e) => assert!(!e.message.is_empty()),
    }
}
