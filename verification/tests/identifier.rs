//! Tests of identifier equality, hashing, rendering, and conversions.

use actionable::Identifier;
use std::hash::Hasher;

fn hash(identifier: &Identifier) -> u64 {
    let mut hasher = std::collections::hash_map::DefaultHasher::default();
    hasher.write(identifier.hash_bytes().as_slice());
    hasher.finish()
}

#[test]
fn identifier_hash_tests() {
    let integer_a = Identifier::from(u64::from_be_bytes(*b"helloooo"));
    let string_a = Identifier::from("helloooo");
    let bytes_a = Identifier::from(b"helloooo");
    let string_b = Identifier::from("woooorld");

    assert_eq!(hash(&Identifier::Any), hash(&Identifier::Any));
    assert_eq!(hash(&string_a), hash(&string_a));
    assert_eq!(hash(&integer_a), hash(&string_a));
    assert_eq!(hash(&bytes_a), hash(&string_a));
    assert_ne!(hash(&string_a), hash(&string_b));
    assert_ne!(hash(&integer_a), hash(&string_b));
    assert_ne!(hash(&bytes_a), hash(&string_b));
}

#[test]
fn identifier_equality_tests() {
    let integer_a = Identifier::from(u64::from_be_bytes(*b"helloooo"));
    let integer_b = Identifier::from(u64::from_be_bytes(*b"woooorld"));
    let string_a = Identifier::from("helloooo");
    let string_b = Identifier::from("woooorld");
    let bytes_a = Identifier::from(b"helloooo");
    let bytes_b = Identifier::from(b"woooorld");

    // Integer on left
    assert_ne!(integer_a, Identifier::Any);
    assert_eq!(integer_a, integer_a);
    assert_eq!(integer_a, string_a);
    assert_eq!(integer_a, bytes_a);
    assert_ne!(integer_a, integer_b);
    assert_ne!(integer_a, string_b);
    assert_ne!(integer_a, bytes_b);

    // String on left
    assert_ne!(string_a, Identifier::Any);
    assert_eq!(string_a, integer_a);
    assert_eq!(string_a, string_a);
    assert_eq!(string_a, bytes_a);
    assert_ne!(string_a, integer_b);
    assert_ne!(string_a, string_b);
    assert_ne!(string_a, bytes_b);

    // Bytes on left
    assert_ne!(bytes_a, Identifier::Any);
    assert_eq!(bytes_a, integer_a);
    assert_eq!(bytes_a, string_a);
    assert_eq!(bytes_a, bytes_a);
    assert_ne!(bytes_a, integer_b);
    assert_ne!(bytes_a, string_b);
    assert_ne!(bytes_a, bytes_b);

    // Any on left
    assert_eq!(Identifier::Any, Identifier::Any);
    assert_ne!(Identifier::Any, integer_a);
    assert_ne!(Identifier::Any, string_a);
    assert_ne!(Identifier::Any, bytes_a);
}

#[test]
fn identifier_display_tests() {
    assert_eq!(Identifier::Any.to_string(), "*");
    assert_eq!(Identifier::from(1).to_string(), "1");
    assert_eq!(Identifier::from("string").to_string(), "string");
    assert_eq!(Identifier::from(b"bytes").to_string(), "$6279746573");
}

#[test]
fn identifier_from_tests() {
    assert_eq!(Identifier::from(1).to_string(), "1");
    assert_eq!(Identifier::from("string").to_string(), "string");
    assert_eq!(
        Identifier::from(&String::from("string")).to_string(),
        "string"
    );
    assert_eq!(
        Identifier::from(String::from("string")).to_string(),
        "string"
    );
    // This calls through to from(&[u8; N])
    assert_eq!(Identifier::from(b"bytes").to_string(), "$6279746573");
    // This calls through to from([u8; N])
    assert_eq!(Identifier::from(*b"bytes").to_string(), "$6279746573");
    assert_eq!(
        Identifier::from(&b"bytes".to_vec()).to_string(),
        "$6279746573"
    );
}

#[test]
fn identifier_to_owned_keeps_value() {
    let id = Identifier::from("users");
    let owned = id.to_owned();
    assert_eq!(id, owned);
    assert_eq!(owned.to_string(), "users");
    let any = Identifier::Any.to_owned();
    assert_eq!(any, Identifier::Any);
}

#[test]
fn identifier_large_integer_rendering() {
    assert_eq!(Identifier::from(0u64).to_string(), "0");
    assert_eq!(
        Identifier::from(u64::MAX).to_string(),
        "18446744073709551615"
    );
}
