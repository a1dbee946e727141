use jsonwebtoken::jwk::Jwk;
use jsonwebtoken::{encode, Algorithm, EncodingKey, Header};
use realtime_gateway::auth::{begin_token_check, finish_with_key_set, select_key, AuthError, JwkCandidate, TokenCheck};
use realtime_gateway::config::Config;
use serde_json::Value;

fn config(pairs: &[(&str, &str)]) -> Config {
    let vars: Vec<(String, String)> = pairs.iter().map(|(k, v)| (k.to_string(), v.to_string())).collect();
    Config::from_vars(&vars, None)
}

fn hmac_token(kid: Option<&str>, claims: &str, secret: &str) -> String {
    let mut header = Header::new(Algorithm::HS256);
    header.kid = kid.map(|k| k.to_string());
    let claims: Value = serde_json::from_str(claims).expect("claims");
    encode(&header, &claims, &EncodingKey::from_secret(secret.as_bytes())).expect("token")
}

fn future_claims(extra: &str) -> String {
    let exp = chrono::Utc::now().timestamp() + 3600;
    format!(r#"{{"sub":"u1","exp":{exp}{extra}}}"#)
}

fn done(check: TokenCheck) -> Result<Value, AuthError> {
    match check {
        TokenCheck::Done(r, _) => r,
        TokenCheck::FetchKeySet { url, key_id } => panic!("unexpected fetch of {url} for {key_id}"),
    }
}

fn octet_jwk(kid: &str, k: &str) -> Jwk {
    serde_json::from_str(&format!(r#"{{"kty":"oct","kid":"{kid}","alg":"HS256","k":"{k}"}}"#)).expect("jwk")
}

#[test]
fn hmac_token_is_verified_with_the_configured_secret() {
    let c = config(&[("JWT_ALG", "HS256"), ("JWT_PUBLIC_KEY", "secret")]);
    let token = hmac_token(None, &future_claims(""), "secret");
    let claims = done(begin_token_check(&c, &token)).expect("claims");
    assert_eq!(claims["sub"], "u1");

    let forged = hmac_token(None, &future_claims(""), "other");
    assert_eq!(done(begin_token_check(&c, &forged)).err(), Some(AuthError::InvalidToken));
    assert_eq!(done(begin_token_check(&c, "not-a-token")).err(), Some(AuthError::InvalidToken));
}

#[test]
fn configured_issuer_is_enforced() {
    let c = config(&[("JWT_ALG", "HS256"), ("JWT_PUBLIC_KEY", "secret"), ("JWT_ISSUER", "iss-a")]);
    let good = hmac_token(None, &future_claims(r#","iss":"iss-a""#), "secret");
    assert!(done(begin_token_check(&c, &good)).is_ok());
    let bad = hmac_token(None, &future_claims(r#","iss":"iss-b""#), "secret");
    assert_eq!(done(begin_token_check(&c, &bad)).err(), Some(AuthError::InvalidToken));
}

#[test]
fn expired_token_is_refused_unless_within_leeway() {
    let exp = chrono::Utc::now().timestamp() - 30;
    let token = hmac_token(None, &format!(r#"{{"sub":"u1","exp":{exp}}}"#), "secret");
    let strict = config(&[("JWT_ALG", "HS256"), ("JWT_PUBLIC_KEY", "secret"), ("JWT_LEEWAY", "1")]);
    assert_eq!(done(begin_token_check(&strict, &token)).err(), Some(AuthError::InvalidToken));
    let lenient = config(&[("JWT_ALG", "HS256"), ("JWT_PUBLIC_KEY", "secret")]);
    assert!(done(begin_token_check(&lenient, &token)).is_ok());
}

#[test]
fn rsa_key_that_is_not_pem_refuses_every_token() {
    let c = config(&[("JWT_ALG", "RS256"), ("JWT_PUBLIC_KEY", "not a pem")]);
    let token = hmac_token(None, &future_claims(""), "secret");
    assert_eq!(done(begin_token_check(&c, &token)).err(), Some(AuthError::InvalidToken));
}

#[test]
fn missing_key_configuration_is_reported() {
    let c = config(&[]);
    assert_eq!(done(begin_token_check(&c, "a.b.c")).err(), Some(AuthError::ConfigMissing));
}

#[test]
fn key_set_is_fetched_for_the_token_key_id() {
    let c = config(&[("JWT_ALG", "HS256"), ("JWT_JWKS_URL", "https://keys.test/jwks")]);
    let token = hmac_token(Some("k1"), &future_claims(""), "secret");
    match begin_token_check(&c, &token) {
        TokenCheck::FetchKeySet { url, key_id } => {
            assert_eq!(url, "https://keys.test/jwks");
            assert_eq!(key_id, "k1");
        }
        TokenCheck::Done(r, _) => panic!("unexpected result {r:?}"),
    }
    let without_kid = hmac_token(None, &future_claims(""), "secret");
    assert_eq!(done(begin_token_check(&c, &without_kid)).err(), Some(AuthError::InvalidToken));
    assert_eq!(done(begin_token_check(&c, "garbage")).err(), Some(AuthError::InvalidToken));
}

#[test]
fn key_set_entry_with_the_key_id_checks_the_token() {
    let c = config(&[("JWT_ALG", "HS256"), ("JWT_JWKS_URL", "https://keys.test/jwks")]);
    let token = hmac_token(Some("k1"), &future_claims(""), "secret");
    // "c2VjcmV0" is "secret" in unpadded base64url; "b3RoZXI" is "other".
    let keys = vec![
        JwkCandidate { key_id: Some("k0".to_string()), jwk: octet_jwk("k0", "b3RoZXI") },
        JwkCandidate { key_id: None, jwk: octet_jwk("x", "b3RoZXI") },
        JwkCandidate { key_id: Some("k1".to_string()), jwk: octet_jwk("k1", "c2VjcmV0") },
    ];
    assert_eq!(select_key(&keys, "k1"), Some(2));
    assert_eq!(select_key(&keys, "k9"), None);
    let claims = finish_with_key_set(&c, &token, "k1", keys).0.expect("claims");
    assert_eq!(claims["sub"], "u1");

    let wrong = vec![JwkCandidate { key_id: Some("k1".to_string()), jwk: octet_jwk("k1", "b3RoZXI") }];
    assert_eq!(finish_with_key_set(&c, &token, "k1", wrong).0.err(), Some(AuthError::InvalidToken));
    let absent = vec![JwkCandidate { key_id: Some("k0".to_string()), jwk: octet_jwk("k0", "c2VjcmV0") }];
    assert_eq!(finish_with_key_set(&c, &token, "k1", absent).0.err(), Some(AuthError::InvalidToken));
}
