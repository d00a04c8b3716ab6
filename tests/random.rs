use rand::Rng;
use linera_kv::random::{generate_random_alphanumeric_string, generate_test_namespace};

#[test]
fn random_string_uses_charset() {
    let charset = b"xyz";
    let s = generate_random_alphanumeric_string(50, charset);
    assert_eq!(s.len(), 50);
    assert!(s.chars().all(|c| "xyz".contains(c)));
}

#[test]
fn random_string_of_length_zero() {
    assert_eq!(generate_random_alphanumeric_string(0, b""), "");
}

#[test]
fn test_namespace_is_valid_table_name() {
    let namespace = generate_test_namespace();
    assert_eq!(namespace.len(), 26);
    assert!(namespace.starts_with("table_"));
    assert!(namespace[6..]
        .chars()
        .all(|c| c.is_ascii_digit() || c.is_ascii_lowercase()));
    assert!(linera_kv::dynamo_db::check_namespace(&namespace).is_ok());
}

#[test]
fn deterministic_rng_repeats() {
    let a: u64 = linera_kv::random::make_deterministic_rng().gen();
    let b: u64 = linera_kv::random::make_deterministic_rng().gen();
    assert_eq!(a, b);
}
