use dpos_poh::poh::{sequential_hash, ProofOfHistory};

#[test]
fn hash_of_hello_world() {
    assert_eq!(
        sequential_hash(b"hello world"),
        vec![104, 205, 57, 165, 20, 52, 171, 26, 140, 248, 92]
    );
}

#[test]
fn hash_of_empty_is_empty() {
    assert!(sequential_hash(b"").is_empty());
}

#[test]
fn hash_wraps_around() {
    assert_eq!(sequential_hash(&[200, 100, 255, 1]), vec![200, 44, 43, 44]);
}

#[test]
fn hash_is_deterministic() {
    let a = sequential_hash(b"some event");
    let b = sequential_hash(b"some event");
    assert_eq!(a, b);
    assert_eq!(a.len(), 10);
}

#[test]
fn hash_depends_on_order() {
    assert_ne!(sequential_hash(b"ab"), sequential_hash(b"ba"));
}

#[test]
fn record_then_verify_example() {
    let mut poh = ProofOfHistory::new();
    let data = b"hello world";
    let hash = poh.record(data);
    assert_eq!(hash, sequential_hash(data));
    let entry = poh.get_entry(&hash).unwrap();
    assert_eq!(entry.hash, hash);
    assert!(poh.verify(data, &hash, entry.timestamp));
    assert!(!poh.verify(data, &hash, entry.timestamp + 1));
}

#[test]
fn record_stamps_with_wall_clock() {
    let mut poh = ProofOfHistory::new();
    let hash = poh.record(b"tick");
    let entry = poh.get_entry(&hash).unwrap();
    // some time after 2020-01-01 in microseconds
    assert!(entry.timestamp > 1_577_836_800_000_000);
}

#[test]
fn record_at_keeps_given_timestamp() {
    let mut poh = ProofOfHistory::new();
    let hash = poh.record_at(b"abc", 42);
    assert_eq!(hash, vec![97, 195, 38]);
    assert_eq!(poh.get_entry(&hash).unwrap().timestamp, 42);
    assert!(poh.verify(b"abc", &hash, 42));
}

#[test]
fn verify_rejects_altered_data() {
    let mut poh = ProofOfHistory::new();
    let hash = poh.record_at(b"abc", 7);
    assert!(!poh.verify(b"abd", &hash, 7));
    assert!(!poh.verify(b"ab", &hash, 7));
}

#[test]
fn verify_rejects_altered_hash() {
    let mut poh = ProofOfHistory::new();
    let hash = poh.record_at(b"abc", 7);
    let mut other = hash.clone();
    other[0] ^= 1;
    assert!(!poh.verify(b"abc", &other, 7));
}

#[test]
fn verify_rejects_altered_timestamp() {
    let mut poh = ProofOfHistory::new();
    let hash = poh.record_at(b"abc", 7);
    assert!(!poh.verify(b"abc", &hash, 8));
    assert!(!poh.verify(b"abc", &hash, 6));
}

#[test]
fn verify_rejects_missing_entry() {
    let poh = ProofOfHistory::new();
    let hash = sequential_hash(b"abc");
    assert!(!poh.verify(b"abc", &hash, 0));
    assert!(poh.get_entry(&hash).is_none());
}

#[test]
fn rerecording_overwrites_timestamp() {
    let mut poh = ProofOfHistory::new();
    let h1 = poh.record_at(b"abc", 1);
    let h2 = poh.record_at(b"xyz", 2);
    let h3 = poh.record_at(b"abc", 3);
    assert_eq!(h1, h3);
    assert!(!poh.verify(b"abc", &h1, 1));
    assert!(poh.verify(b"abc", &h1, 3));
    assert!(poh.verify(b"xyz", &h2, 2));
}
