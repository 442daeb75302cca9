use policy_cache::codec::{encode_key, CompositeKey};
use policy_cache::values::{decode_response, CacheValue};

fn key(parts: &[&str]) -> CompositeKey {
    CompositeKey::new(parts.iter().map(|p| p.as_bytes().to_vec()).collect())
}

#[test]
fn encode_key_exact_form() {
    assert_eq!(encode_key(&key(&["alice"])), b"[\"alice\"]".to_vec());
    assert_eq!(
        encode_key(&key(&["alice", "/data1", "read"])),
        b"[\"alice\",\"/data1\",\"read\"]".to_vec()
    );
    assert_eq!(encode_key(&key(&[])), b"[]".to_vec());
    assert_eq!(encode_key(&key(&[""])), b"[\"\"]".to_vec());
}

#[test]
fn encode_key_escapes_quotes_and_backslashes() {
    assert_eq!(encode_key(&key(&["a\"b"])), b"[\"a\\\"b\"]".to_vec());
    assert_eq!(encode_key(&key(&["a\\b"])), b"[\"a\\\\b\"]".to_vec());
}

#[test]
fn distinct_keys_have_distinct_tokens() {
    let pairs: &[(&[&str], &[&str])] = &[
        (&["alice", "/data1", "read"], &["alice", "/data1", "write"]),
        (&["ab", "c"], &["a", "bc"]),
        (&["a\",\"b"], &["a", "b"]),
        (&["a\\"], &["a\\\\"]),
        (&[], &[""]),
        (&["a"], &["a", ""]),
    ];
    for (left, right) in pairs {
        assert_ne!(encode_key(&key(left)), encode_key(&key(right)));
    }
}

#[test]
fn bool_codec_round_trips() {
    assert_eq!(true.encode(), b"true".to_vec());
    assert_eq!(false.encode(), b"false".to_vec());
    assert_eq!(bool::decode(b"true"), Some(true));
    assert_eq!(bool::decode(b"false"), Some(false));
    assert_eq!(bool::decode(true.encode().as_slice()), Some(true));
    assert_eq!(bool::decode(false.encode().as_slice()), Some(false));
}

#[test]
fn malformed_values_decode_to_nothing() {
    assert_eq!(bool::decode(b""), None);
    assert_eq!(bool::decode(b"TRUE"), None);
    assert_eq!(bool::decode(b"truex"), None);
    assert_eq!(bool::decode(b"fals"), None);
}

#[test]
fn absent_and_malformed_responses_are_misses() {
    assert_eq!(decode_response::<bool>(None), None);
    assert_eq!(decode_response::<bool>(Some(b"garbage".to_vec())), None);
    assert_eq!(decode_response::<bool>(Some(b"true".to_vec())), Some(true));
    assert_eq!(decode_response::<bool>(Some(b"false".to_vec())), Some(false));
}
