//! Tests of configuration values: lookup precedence, conversions, and
//! rendering.

use actionable::{Configuration, Permissions, ResourceName, Statement};

#[test]
fn configuration_precedence() {
    // A resource-specific key overrides the same key set at the wildcard,
    // in either statement order.
    let specific_first = Permissions::from(vec![
        Statement::for_resource("core-api").with("rate-limit", 100_u64),
        Statement::for_any().with("rate-limit", 500_u64),
    ]);
    let wildcard_first = Permissions::from(vec![
        Statement::for_any().with("rate-limit", 500_u64),
        Statement::for_resource("core-api").with("rate-limit", 100_u64),
    ]);
    for permissions in [specific_first, wildcard_first] {
        let found = permissions
            .get(&ResourceName::named("core-api"), "rate-limit")
            .and_then(Configuration::to_unsigned);
        assert_eq!(found, Some(100));
        let fallback = permissions
            .get(&ResourceName::named("other-api"), "rate-limit")
            .and_then(Configuration::to_unsigned);
        assert_eq!(fallback, Some(500));
    }
}

#[test]
fn configuration_wildcard_fallback() {
    let permissions =
        Permissions::from(vec![Statement::for_any().with("rate-limit", 500_u64)]);
    let effective_rate_limit = permissions
        .get(&ResourceName::named("core-api"), "rate-limit")
        .and_then(Configuration::to_unsigned);
    assert_eq!(effective_rate_limit, Some(500));
    assert!(permissions
        .get(&ResourceName::named("core-api"), "other-key")
        .is_none());
}

#[test]
fn configuration_first_statement_wins_per_key() {
    let permissions = Permissions::from(vec![
        Statement::for_resource("api").with("limit", 1_u64),
        Statement::for_resource("api").with("limit", 2_u64).with("burst", 9_u64),
    ]);
    let limit = permissions
        .get(&ResourceName::named("api"), "limit")
        .and_then(Configuration::to_unsigned);
    assert_eq!(limit, Some(1));
    let burst = permissions
        .get(&ResourceName::named("api"), "burst")
        .and_then(Configuration::to_unsigned);
    assert_eq!(burst, Some(9));
}

#[test]
fn configuration_deeper_match_wins() {
    let permissions = Permissions::from(vec![
        Statement::for_resource(ResourceName::named("users").and(42_u64)).with("quota", 10_u64),
        Statement::for_resource("users").with("quota", 1_u64),
    ]);
    let deep = permissions
        .get(&ResourceName::named("users").and(42_u64), "quota")
        .and_then(Configuration::to_unsigned);
    assert_eq!(deep, Some(10));
    let shallow = permissions
        .get(&ResourceName::named("users").and(7_u64), "quota")
        .and_then(Configuration::to_unsigned);
    assert_eq!(shallow, Some(1));
}

#[test]
fn configure_replaces_earlier_value() {
    let statement = Statement::for_resource("api")
        .with("limit", 1_u64)
        .with("limit", 2_u64);
    let permissions = Permissions::from(vec![statement]);
    let limit = permissions
        .get(&ResourceName::named("api"), "limit")
        .and_then(Configuration::to_unsigned);
    assert_eq!(limit, Some(2));
}

#[test]
fn conversions_within_variant() {
    assert_eq!(Configuration::Unsigned(5).to_unsigned(), Some(5));
    assert_eq!(Configuration::Signed(-5).to_signed(), Some(-5));
    assert_eq!(Configuration::from(7_u64).to_unsigned(), Some(7));
    assert_eq!(Configuration::from(-7_i64).to_signed(), Some(-7));
}

#[test]
fn conversions_across_variants() {
    assert_eq!(Configuration::Unsigned(5).to_signed(), Some(5));
    assert_eq!(Configuration::Unsigned(u64::MAX).to_signed(), None);
    assert_eq!(Configuration::Unsigned(i64::MAX as u64).to_signed(), Some(i64::MAX));
    assert_eq!(Configuration::Signed(5).to_unsigned(), Some(5));
    assert_eq!(Configuration::Signed(-1).to_unsigned(), None);
}

#[test]
fn conversions_from_text() {
    assert_eq!(Configuration::from("42").to_unsigned(), Some(42));
    assert_eq!(Configuration::from("+42").to_unsigned(), Some(42));
    assert_eq!(Configuration::from("-42").to_signed(), Some(-42));
    assert_eq!(Configuration::from("42").to_signed(), Some(42));
    assert_eq!(Configuration::from("").to_unsigned(), None);
    assert_eq!(Configuration::from("+").to_unsigned(), None);
    assert_eq!(Configuration::from("4a2").to_unsigned(), None);
    assert_eq!(Configuration::from("-1").to_unsigned(), None);
    assert_eq!(
        Configuration::from("18446744073709551615").to_unsigned(),
        Some(u64::MAX)
    );
    assert_eq!(Configuration::from("18446744073709551616").to_unsigned(), None);
    assert_eq!(
        Configuration::from("-9223372036854775808").to_signed(),
        Some(i64::MIN)
    );
    assert_eq!(Configuration::from("-9223372036854775809").to_signed(), None);
    assert_eq!(
        Configuration::from("9223372036854775807").to_signed(),
        Some(i64::MAX)
    );
    assert_eq!(Configuration::from("9223372036854775808").to_signed(), None);
}

#[test]
fn configuration_rendering() {
    assert_eq!(Configuration::Unsigned(500).to_string(), "500");
    assert_eq!(Configuration::Signed(-5).to_string(), "-5");
    assert_eq!(Configuration::Signed(i64::MIN).to_string(), "-9223372036854775808");
    assert_eq!(Configuration::from("text").to_string(), "text");
}

#[test]
fn resource_name_rendering() {
    assert_eq!(ResourceName::named("users").and(42_u64).to_string(), "users.42");
    assert_eq!(ResourceName::default().to_string(), "");
    assert_eq!(
        ResourceName::any().and(b"ab".as_slice()).to_string(),
        "*.$6162"
    );
}
