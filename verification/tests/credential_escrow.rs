use terminox::credential_escrow::{CredentialEscrow, TOKEN_TTL_NANOS};

#[test]
fn store_then_claim_returns_password_once() {
    let mut e = CredentialEscrow::new();
    let token = e.store("hunter2".to_string());
    assert_eq!(token.len(), 36);
    assert_eq!(e.claim(&token).as_deref(), Some("hunter2"));
    assert_eq!(e.claim(&token), None);
}

#[test]
fn unknown_token_claims_nothing() {
    let mut e = CredentialEscrow::new();
    assert_eq!(e.claim("no-such-token"), None);
}

#[test]
fn token_shape_is_hyphenated_lowercase_uuid() {
    let mut e = CredentialEscrow::new();
    let t = e.store("p".to_string());
    for (i, c) in t.chars().enumerate() {
        if [8, 13, 18, 23].contains(&i) {
            assert_eq!(c, '-');
        } else {
            assert!(c.is_ascii_hexdigit() && !c.is_ascii_uppercase());
        }
    }
    let v: Vec<char> = t.chars().collect();
    assert_eq!(v[14], '4');
    assert!(['8', '9', 'a', 'b'].contains(&v[19]));
}

#[test]
fn expired_claim_fails_and_removes() {
    let mut e = CredentialEscrow::new();
    e.store_at("pw".to_string(), "tok".to_string(), 100);
    assert_eq!(e.claim_at("tok", 100 + TOKEN_TTL_NANOS), None);
    assert_eq!(e.claim_at("tok", 101), None);
}

#[test]
fn claim_just_before_expiry_succeeds() {
    let mut e = CredentialEscrow::new();
    e.store_at("pw".to_string(), "tok".to_string(), 5);
    assert_eq!(e.claim_at("tok", 4 + TOKEN_TTL_NANOS).as_deref(), Some("pw"));
}

#[test]
fn store_purges_expired_records_only() {
    let mut e = CredentialEscrow::new();
    e.store_at("old".to_string(), "a".to_string(), 0);
    e.store_at("new".to_string(), "b".to_string(), TOKEN_TTL_NANOS - 1);
    e.store_at("third".to_string(), "c".to_string(), TOKEN_TTL_NANOS);
    // "a" expired at TOKEN_TTL_NANOS and was purged by the third store.
    assert_eq!(e.claim_at("a", 0), None);
    assert_eq!(e.claim_at("b", TOKEN_TTL_NANOS).as_deref(), Some("new"));
    assert_eq!(e.claim_at("c", TOKEN_TTL_NANOS).as_deref(), Some("third"));
}

#[test]
fn storing_same_token_replaces_password() {
    let mut e = CredentialEscrow::new();
    e.store_at("one".to_string(), "t".to_string(), 0);
    e.store_at("two".to_string(), "t".to_string(), 1);
    assert_eq!(e.claim_at("t", 2).as_deref(), Some("two"));
    assert_eq!(e.claim_at("t", 2), None);
}

#[test]
fn expiry_saturates() {
    let mut e = CredentialEscrow::new();
    e.store_at("pw".to_string(), "t".to_string(), u128::MAX - 1);
    assert_eq!(e.claim_at("t", u128::MAX - 1).as_deref(), Some("pw"));
}
