use projekto::cache::{self, CacheError};

#[test]
fn cache_round_trip() {
    let data: Vec<u8> = (0..2000u32).map(|i| (i % 17) as u8).collect();
    let encoded = cache::encode_cache(&data);
    assert_ne!(encoded, data);
    assert_eq!(&encoded[0..4], &(data.len() as u32).to_le_bytes());
    let decoded = cache::decode_cache(&encoded).unwrap();
    assert_eq!(decoded, data);
}

#[test]
fn cache_round_trip_empty() {
    let encoded = cache::encode_cache(&[]);
    assert_eq!(&encoded[0..4], &[0, 0, 0, 0]);
    assert_eq!(cache::decode_cache(&encoded).unwrap(), Vec::<u8>::new());
}

#[test]
fn cache_corrupted() {
    assert_eq!(cache::decode_cache(&[1, 2]), Err(CacheError::Corrupted));
    assert_eq!(cache::decode_cache(&[200, 0, 0, 0, 255, 255]), Err(CacheError::Corrupted));
}
