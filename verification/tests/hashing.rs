use basic_hash_ring::digits::push_decimal;
use basic_hash_ring::{FnHasher, HashRing, KeyHasher, Xxh3};
use xxhash_rust::xxh3::xxh3_64;

/// A hash whose positions are easy to foresee: the first byte times 256
/// plus the last byte.
fn ends(input: &[u8]) -> u64 {
    match (input.first(), input.last()) {
        (Some(a), Some(b)) => (*a as u64) * 256 + (*b as u64),
        _ => 0,
    }
}

fn decimal_of(n: usize) -> Vec<u8> {
    let mut out = Vec::new();
    push_decimal(&mut out, n);
    out
}

#[test]
fn xxh3_policy_is_the_crate_function() {
    assert_eq!(Xxh3.hash(b"node12"), xxh3_64(b"node12"));
    assert_eq!(Xxh3.hash(b""), xxh3_64(b""));
    assert_ne!(Xxh3.hash(b"a"), Xxh3.hash(b"b"));
    let long = vec![7u8; 1000];
    assert_eq!(Xxh3.hash(&long), xxh3_64(&long));
}

#[test]
fn decimal_digits_of_small_numbers() {
    assert_eq!(decimal_of(0), b"0".to_vec());
    assert_eq!(decimal_of(7), b"7".to_vec());
    assert_eq!(decimal_of(10), b"10".to_vec());
    assert_eq!(decimal_of(99), b"99".to_vec());
    assert_eq!(decimal_of(100), b"100".to_vec());
    assert_eq!(decimal_of(12345), b"12345".to_vec());
}

#[test]
fn decimal_digits_of_the_largest_number() {
    assert_eq!(decimal_of(usize::MAX), usize::MAX.to_string().into_bytes());
}

#[test]
fn decimal_digits_are_appended() {
    let mut out = b"node".to_vec();
    push_decimal(&mut out, 42);
    assert_eq!(out, b"node42".to_vec());
}

#[test]
fn virtual_point_hashes_identity_then_index() {
    let ring = HashRing::new_with_replicas(3);
    assert_eq!(ring.generate_hash("node", 0), xxh3_64(b"node0"));
    assert_eq!(ring.generate_hash("node", 12), xxh3_64(b"node12"));
    assert_eq!(ring.generate_hash("", 5), xxh3_64(b"5"));
    assert_eq!(
        ring.generate_hash("node1.example.com", 99),
        xxh3_64(b"node1.example.com99")
    );
    assert_ne!(ring.generate_hash("node", 12), xxh3_64(b"12node"));
}

#[test]
fn virtual_point_of_a_name_beyond_ascii() {
    let ring = HashRing::new();
    let name = "n\u{153}ud-\u{6771}\u{4eac}";
    let expected = xxh3_64(format!("{}{}", name, 3).as_bytes());
    assert_eq!(ring.generate_hash(name, 3), expected);
}

#[test]
fn virtual_point_under_a_custom_policy() {
    let ring = HashRing::with_hash_and_replicas(2, FnHasher::new(ends));
    assert_eq!(ring.generate_hash("A", 0), 65 * 256 + 48);
    assert_eq!(ring.generate_hash("A", 1), 65 * 256 + 49);
    assert_eq!(ring.generate_hash("B", 10), 66 * 256 + 48);
}

#[test]
fn custom_policy_places_points_where_it_says() {
    let mut ring = HashRing::with_hash_and_replicas(2, FnHasher::new(ends));
    ring.add(&["B".to_string(), "A".to_string()]);
    assert_eq!(
        ring.points(),
        &vec![65 * 256 + 48, 65 * 256 + 49, 66 * 256 + 48, 66 * 256 + 49]
    );
    assert_eq!(ring.owner_of(65 * 256 + 49), Some(&"A".to_string()));
    assert_eq!(ring.owner_of(66 * 256 + 48), Some(&"B".to_string()));
    // "AZ" hashes to 65 * 256 + 90, between the points of A and of B.
    assert_eq!(ring.get("AZ"), Some(&"B".to_string()));
    // "A0" falls on the first point of A.
    assert_eq!(ring.get("A0"), Some(&"A".to_string()));
    // "Z" lies above every point and goes round to the lowest.
    assert_eq!(ring.get("Z"), Some(&"A".to_string()));
}

#[test]
fn function_policy_calls_the_function() {
    assert_eq!(FnHasher::new(ends).hash(b"AZ"), 65 * 256 + 90);
    assert_eq!(FnHasher::new(ends).hash(b""), 0);
    assert_eq!(FnHasher::new(xxh3_64).hash(b"abc"), xxh3_64(b"abc"));
    let offset = 7u64;
    let shifted = FnHasher::new(move |input: &[u8]| input.len() as u64 + offset);
    assert_eq!(shifted.hash(b"abc"), 10);
}

#[test]
fn function_policy_of_xxh3_is_the_built_in_policy() {
    let mut built_in = HashRing::new_with_replicas(20);
    let mut by_function = HashRing::with_hash_and_replicas(20, FnHasher::new(xxh3_64));
    let nodes = vec!["n1".to_string(), "n2".to_string(), "n3".to_string()];
    built_in.add(&nodes);
    by_function.add(&nodes);
    assert_eq!(built_in.points(), by_function.points());
    for i in 0..50 {
        let key = format!("key-{}", i);
        assert_eq!(built_in.get(&key), by_function.get(&key));
    }
}

#[test]
fn colliding_replicas_of_one_node() {
    // Every replica of a node falls on one point under this hash.
    let mut ring = HashRing::with_hash_and_replicas(3, FnHasher::new(|b: &[u8]| b[0] as u64));
    ring.add(&["A".to_string(), "C".to_string()]);
    assert_eq!(ring.points(), &vec![65, 65, 65, 67, 67, 67]);
    assert_eq!(ring.get("B"), Some(&"C".to_string()));
    assert_eq!(ring.get("D"), Some(&"A".to_string()));
    ring.remove("A");
    assert_eq!(ring.points(), &vec![67, 67, 67]);
    assert_eq!(ring.get("A"), Some(&"C".to_string()));
}
