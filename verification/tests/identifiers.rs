use sch_engine::ids::stable_uuid;

#[test]
fn uuid_is_deterministic_and_keyed() {
    let a = stable_uuid("symbol", "U1");
    let b = stable_uuid("symbol", "U1");
    let c = stable_uuid("symbol", "U2");
    assert_eq!(a, b);
    assert_ne!(a, c);
    assert_eq!(a.len(), 36);
}

#[test]
fn uuid_is_canonical_lowercase_hyphenated() {
    let u = stable_uuid("net", "GND");
    assert_eq!(u, u.to_lowercase());
    assert_eq!(u.matches('-').count(), 4);
    assert!(u.chars().all(|c| c.is_ascii_hexdigit() || c == '-'), "{u}");
}

#[test]
fn kind_namespacing_separates_collisions() {
    assert_ne!(stable_uuid("symbol", "X"), stable_uuid("net", "X"));
}

#[test]
fn identifiers_are_those_of_the_namespace() {
    let want = uuid::Uuid::new_v5(
        &uuid::Uuid::from_u128(0x6f6a_4e2c_8b1d_5a3f_9c0e_1d2b_3a4c_5d6e),
        b"symbol:U1",
    );
    assert_eq!(stable_uuid("symbol", "U1"), want.to_string());
}
