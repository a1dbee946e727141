//! Token verification: how the configuration selects the JWT algorithm,
//! validation rules and key, and how the user id is read from the claims.

use vstd::prelude::*;
use crate::config::Config;
use crate::json::{json_str, JsonValue};
use crate::text::str_eq;
use jsonwebtoken::{Algorithm, DecodingKey, Validation};
use jsonwebtoken::jwk::Jwk;
use serde_json::Value;

verus! {

/// Why a token was not accepted.
#[derive(Clone, Copy, Debug, PartialEq, Eq, Structural)]
pub enum AuthError {
    MissingToken,
    InvalidToken,
    ConfigMissing,
}

impl AuthError {
    pub open spec fn spec_message(self) -> Seq<char> {
        match self {
            AuthError::MissingToken => "missing token"@,
            AuthError::InvalidToken => "invalid token"@,
            AuthError::ConfigMissing => "jwt config missing"@,
        }
    }

    /// The error's text.
    pub fn message(&self) -> (r: &'static str)
        ensures
            r@ == self.spec_message(),
    {
        match self {
            AuthError::MissingToken => "missing token",
            AuthError::InvalidToken => "invalid token",
            AuthError::ConfigMissing => "jwt config missing",
        }
    }
}

/// The JWT signature algorithms the gateway accepts.
#[derive(Clone, Copy, Debug, PartialEq, Eq, Structural)]
pub enum JwtAlgorithm {
    RS256,
    RS384,
    RS512,
    HS256,
    HS384,
    HS512,
}

impl JwtAlgorithm {
    /// An HMAC algorithm, whose key is a shared secret.
    pub open spec fn spec_is_hmac(self) -> bool {
        self == JwtAlgorithm::HS256 || self == JwtAlgorithm::HS384 || self == JwtAlgorithm::HS512
    }

    /// Whether the algorithm's key is a shared secret.
    pub fn is_hmac(self) -> (r: bool)
        ensures
            r == self.spec_is_hmac(),
    {
        match self {
            JwtAlgorithm::HS256 | JwtAlgorithm::HS384 | JwtAlgorithm::HS512 => true,
            _ => false,
        }
    }
}

/// The algorithm a configured name selects; `RS256` for an unknown name.
pub open spec fn spec_algorithm(name: Seq<char>) -> JwtAlgorithm {
    if name == "RS384"@ {
        JwtAlgorithm::RS384
    } else if name == "RS512"@ {
        JwtAlgorithm::RS512
    } else if name == "HS256"@ {
        JwtAlgorithm::HS256
    } else if name == "HS384"@ {
        JwtAlgorithm::HS384
    } else if name == "HS512"@ {
        JwtAlgorithm::HS512
    } else {
        JwtAlgorithm::RS256
    }
}

/// The algorithm a configured name selects (see `spec_algorithm`).
pub fn select_jwt_algorithm(name: &str) -> (r: JwtAlgorithm)
    ensures
        r == spec_algorithm(name@),
{
    if str_eq(name, "RS384") {
        JwtAlgorithm::RS384
    } else if str_eq(name, "RS512") {
        JwtAlgorithm::RS512
    } else if str_eq(name, "HS256") {
        JwtAlgorithm::HS256
    } else if str_eq(name, "HS384") {
        JwtAlgorithm::HS384
    } else if str_eq(name, "HS512") {
        JwtAlgorithm::HS512
    } else {
        JwtAlgorithm::RS256
    }
}

/// How a token is validated: its algorithm, and the issuer, audience and
/// leeway to check when configured.
#[derive(Clone, Debug)]
pub struct JwtValidationPlan {
    pub algorithm: JwtAlgorithm,
    pub issuer: Option<String>,
    pub audience: Option<String>,
    pub leeway: Option<u64>,
}

/// Where the key that checks a token comes from.
#[derive(Clone, Debug)]
pub enum JwtKeySource {
    /// The key set at this URL, by the token's key id.
    Jwks { url: String },
    /// The configured key: a shared secret for HMAC algorithms, an RSA public
    /// key (PEM) otherwise.
    Configured { secret: bool },
    /// No key is configured.
    Missing,
}

/// The plain view of an optional string.
pub open spec fn opt_str_view(s: Option<String>) -> Option<Seq<char>> {
    match s {
        Some(x) => Some(x@),
        None => None,
    }
}

/// How the configuration validates tokens: issuer and audience when not
/// empty, leeway when positive.
pub fn validation_plan(config: &Config) -> (r: JwtValidationPlan)
    ensures
        r.algorithm == spec_algorithm(config.jwt_alg@),
        opt_str_view(r.issuer) == (if config.jwt_issuer@.len() > 0 { Some(config.jwt_issuer@) } else { None }),
        opt_str_view(r.audience) == (if config.jwt_audience@.len() > 0 { Some(config.jwt_audience@) } else { None }),
        r.leeway == (if config.jwt_leeway > 0 { Some(config.jwt_leeway as u64) } else { None }),
{
    JwtValidationPlan {
        algorithm: select_jwt_algorithm(config.jwt_alg.as_str()),
        issuer: if config.jwt_issuer.as_str().is_empty() { None } else { Some(config.jwt_issuer.clone()) },
        audience: if config.jwt_audience.as_str().is_empty() { None } else { Some(config.jwt_audience.clone()) },
        leeway: if config.jwt_leeway > 0 { Some(config.jwt_leeway as u64) } else { None },
    }
}

/// Where the configuration takes the token key from: the key set URL when
/// configured, else the configured key, else none.
pub fn key_source(config: &Config) -> (r: JwtKeySource)
    ensures
        config.jwt_jwks_url@.len() > 0 ==> (r matches JwtKeySource::Jwks { url } && url@ == config.jwt_jwks_url@),
        config.jwt_jwks_url@.len() == 0 && config.jwt_public_key@.len() > 0 ==> (r matches JwtKeySource::Configured { secret }
            && secret == spec_algorithm(config.jwt_alg@).spec_is_hmac()),
        config.jwt_jwks_url@.len() == 0 && config.jwt_public_key@.len() == 0 ==> r is Missing,
{
    if !config.jwt_jwks_url.as_str().is_empty() {
        return JwtKeySource::Jwks { url: config.jwt_jwks_url.clone() };
    }
    if !config.jwt_public_key.as_str().is_empty() {
        return JwtKeySource::Configured { secret: select_jwt_algorithm(config.jwt_alg.as_str()).is_hmac() };
    }
    JwtKeySource::Missing
}

/// The user id in a token's claims: the claim named `claim`, when it is a
/// non-empty string; otherwise the token is invalid.
pub fn user_id_from_claims(claims: &JsonValue, claim: &str) -> (r: Result<String, AuthError>)
    ensures
        match r {
            Ok(u) => json_str(*claims, claim@) == Some(u@) && u@.len() > 0,
            Err(e) => e == AuthError::InvalidToken
                && (json_str(*claims, claim@) is None || json_str(*claims, claim@).unwrap().len() == 0),
        },
{
    match claims.get_str(claim) {
        Some(u) => if u.is_empty() { Err(AuthError::InvalidToken) } else { Ok(String::from_str(u)) },
        None => Err(AuthError::InvalidToken),
    }
}


#[verifier::external_type_specification]
#[verifier::external_body]
pub struct ExValidation(jsonwebtoken::Validation);

#[verifier::external_type_specification]
#[verifier::external_body]
pub struct ExDecodingKey(jsonwebtoken::DecodingKey);

#[verifier::external_type_specification]
#[verifier::external_body]
pub struct ExJwk(jsonwebtoken::jwk::Jwk);

#[verifier::external_type_specification]
#[verifier::external_body]
pub struct ExJwtError(jsonwebtoken::errors::Error);

#[verifier::external_type_specification]
#[verifier::external_body]
pub struct ExClaims(serde_json::Value);

/// The key id that `jsonwebtoken::decode_header` reads from a token's header:
/// `None` when the header cannot be decoded, `Some(None)` when it names no key.
pub uninterp spec fn spec_header_key_id(token: Seq<char>) -> Option<Option<Seq<char>>>;

/// Whether `DecodingKey::from_rsa_pem` accepts these bytes as an RSA public key.
pub uninterp spec fn spec_rsa_pem_accepted(pem: Seq<u8>) -> bool;

/// How a validation was built: the algorithm it was made for, and the
/// issuer, audience and leeway set on it (`None`: not set, so
/// jsonwebtoken's default stands).
pub struct ValidationSettings {
    pub algorithm: JwtAlgorithm,
    pub issuer: Option<Seq<char>>,
    pub audience: Option<Seq<char>>,
    pub leeway: Option<u64>,
}

/// A jsonwebtoken validation, with a record of how it was built.
pub struct TokenValidation {
    validation: Validation,
    settings: Ghost<ValidationSettings>,
}

impl TokenValidation {
    /// How the validation was built.
    pub closed spec fn settings(&self) -> ValidationSettings {
        self.settings@
    }
}

/// Calls `jsonwebtoken::Validation::new` for the algorithm and records it.
/// The defaults it sets (expiry required, sixty seconds of leeway, audience
/// checked when present) are not stated: the validation is opaque here.
#[verifier::external_body]
fn new_validation(alg: JwtAlgorithm) -> (r: TokenValidation)
    ensures
        r.settings() == (ValidationSettings { algorithm: alg, issuer: None, audience: None, leeway: None }),
{
    let algorithm = match alg {
        JwtAlgorithm::RS256 => Algorithm::RS256,
        JwtAlgorithm::RS384 => Algorithm::RS384,
        JwtAlgorithm::RS512 => Algorithm::RS512,
        JwtAlgorithm::HS256 => Algorithm::HS256,
        JwtAlgorithm::HS384 => Algorithm::HS384,
        JwtAlgorithm::HS512 => Algorithm::HS512,
    };
    TokenValidation {
        validation: Validation::new(algorithm),
        settings: Ghost(ValidationSettings { algorithm: alg, issuer: None, audience: None, leeway: None }),
    }
}

/// Calls `Validation::set_issuer` with the one accepted issuer and records it.
#[verifier::external_body]
fn set_validation_issuer(v: &mut TokenValidation, issuer: &str)
    ensures
        final(v).settings() == (ValidationSettings { issuer: Some(issuer@), ..old(v).settings() }),
{
    v.validation.set_issuer(&[issuer]);
}

/// Calls `Validation::set_audience` with the one accepted audience and
/// records it.
#[verifier::external_body]
fn set_validation_audience(v: &mut TokenValidation, audience: &str)
    ensures
        final(v).settings() == (ValidationSettings { audience: Some(audience@), ..old(v).settings() }),
{
    v.validation.set_audience(&[audience]);
}

/// Sets the public field `Validation::leeway` and records it.
#[verifier::external_body]
fn set_validation_leeway(v: &mut TokenValidation, leeway: u64)
    ensures
        final(v).settings() == (ValidationSettings { leeway: Some(leeway), ..old(v).settings() }),
{
    v.validation.leeway = leeway;
}

/// Calls `jsonwebtoken::decode_header` and keeps the header's `kid`. The
/// result is named `spec_header_key_id` of the token: the header is decoded
/// from the token alone, without checking its signature.
#[verifier::external_body]
fn header_key_id(token: &str) -> (r: Result<Option<String>, jsonwebtoken::errors::Error>)
    ensures
        spec_header_key_id(token@) == (match r {
            Ok(k) => Some(opt_str_view(k)),
            Err(_) => None,
        }),
{
    jsonwebtoken::decode_header(token).map(|header| header.kid)
}

/// Where a decoding key was made from: a shared secret, an RSA public key
/// in PEM form, or an entry of a key set.
pub enum KeyOrigin {
    Secret(Seq<u8>),
    RsaPem(Seq<u8>),
    KeySetEntry(Jwk),
}

/// A jsonwebtoken decoding key, with a record of what it was made from.
pub struct TokenKey {
    key: DecodingKey,
    origin: Ghost<KeyOrigin>,
}

impl TokenKey {
    /// What the key was made from.
    pub closed spec fn origin(&self) -> KeyOrigin {
        self.origin@
    }
}

/// Calls `DecodingKey::from_secret`, which takes any bytes as an HMAC
/// secret, and records them.
#[verifier::external_body]
fn decoding_key_from_secret(secret: &[u8]) -> (r: TokenKey)
    ensures
        r.origin() == KeyOrigin::Secret(secret@),
{
    TokenKey { key: DecodingKey::from_secret(secret), origin: Ghost(KeyOrigin::Secret(secret@)) }
}

/// Calls `DecodingKey::from_rsa_pem`: whether the bytes are accepted is named
/// `spec_rsa_pem_accepted`; an accepted key records them.
#[verifier::external_body]
fn decoding_key_from_rsa_pem(pem: &[u8]) -> (r: Result<TokenKey, jsonwebtoken::errors::Error>)
    ensures
        r is Ok == spec_rsa_pem_accepted(pem@),
        r matches Ok(k) ==> k.origin() == KeyOrigin::RsaPem(pem@),
{
    DecodingKey::from_rsa_pem(pem).map(|key| TokenKey { key, origin: Ghost(KeyOrigin::RsaPem(pem@)) })
}

/// Calls `DecodingKey::from_jwk`; an accepted entry is recorded. The entry
/// is opaque here, so nothing is stated of which entries it accepts.
#[verifier::external_body]
fn decoding_key_from_jwk(jwk: &Jwk) -> (r: Result<TokenKey, jsonwebtoken::errors::Error>)
    ensures
        r matches Ok(k) ==> k.origin() == KeyOrigin::KeySetEntry(*jwk),
{
    DecodingKey::from_jwk(jwk).map(|key| TokenKey { key, origin: Ghost(KeyOrigin::KeySetEntry(*jwk)) })
}

/// Calls `jsonwebtoken::decode` and keeps the claims. Nothing is stated of
/// the outcome: it checks the signature with an opaque key and the expiry
/// against the current time.
#[verifier::external_body]
fn decode_claims(token: &str, key: &TokenKey, validation: &TokenValidation) -> Result<Value, jsonwebtoken::errors::Error> {
    jsonwebtoken::decode::<Value>(token, &key.key, &validation.validation).map(|data| data.claims)
}

/// What a token was handed to the decoder with: the token, where the key
/// came from, and how the validation was built.
pub struct DecodeRequest {
    pub token: Seq<char>,
    pub key: KeyOrigin,
    pub settings: ValidationSettings,
}

/// Decodes `token` with `key` and `validation`; every error of the decoder
/// makes the token invalid. The returned record says what was handed to
/// the decoder.
pub fn decode_token(token: &str, key: &TokenKey, validation: &TokenValidation)
    -> (r: (Result<Value, AuthError>, Ghost<DecodeRequest>))
    ensures
        r.1@ == (DecodeRequest { token: token@, key: key.origin(), settings: validation.settings() }),
        r.0 matches Err(e) ==> e == AuthError::InvalidToken,
{
    let request = Ghost(DecodeRequest { token: token@, key: key.origin(), settings: validation.settings() });
    match decode_claims(token, key, validation) {
        Ok(claims) => (Ok(claims), request),
        Err(_) => (Err(AuthError::InvalidToken), request),
    }
}

/// How the configuration asks for tokens to be validated (see
/// `validation_plan`).
pub open spec fn configured_settings(config: Config) -> ValidationSettings {
    ValidationSettings {
        algorithm: spec_algorithm(config.jwt_alg@),
        issuer: if config.jwt_issuer@.len() > 0 { Some(config.jwt_issuer@) } else { None },
        audience: if config.jwt_audience@.len() > 0 { Some(config.jwt_audience@) } else { None },
        leeway: if config.jwt_leeway > 0 { Some(config.jwt_leeway as u64) } else { None },
    }
}

/// The validation the configuration asks for: made for its algorithm, with
/// its issuer, audience and leeway set when configured.
fn configured_validation(config: &Config) -> (r: TokenValidation)
    ensures
        r.settings() == configured_settings(*config),
{
    let plan = validation_plan(config);
    let mut validation = new_validation(plan.algorithm);
    match &plan.issuer {
        Some(issuer) => set_validation_issuer(&mut validation, issuer.as_str()),
        None => {},
    }
    match &plan.audience {
        Some(audience) => set_validation_audience(&mut validation, audience.as_str()),
        None => {},
    }
    match plan.leeway {
        Some(leeway) => set_validation_leeway(&mut validation, leeway),
        None => {},
    }
    validation
}

/// A key offered by a key set: its key id and the key itself.
pub struct JwkCandidate {
    pub key_id: Option<String>,
    pub jwk: Jwk,
}

/// Whether a key set entry carries the key id `kid`.
pub open spec fn offers_key(c: JwkCandidate, kid: Seq<char>) -> bool {
    opt_str_view(c.key_id) == Some(kid)
}

/// The first entry of a key set that carries the key id `kid`, if any.
pub fn select_key(candidates: &[JwkCandidate], kid: &str) -> (r: Option<usize>)
    ensures
        match r {
            Some(i) => i < candidates@.len() && offers_key(candidates@[i as int], kid@)
                && forall|j: int| 0 <= j < i ==> !offers_key(#[trigger] candidates@[j], kid@),
            None => forall|j: int| 0 <= j < candidates@.len() ==> !offers_key(#[trigger] candidates@[j], kid@),
        },
{
    let mut i: usize = 0;
    while i < candidates.len()
        invariant
            i <= candidates@.len(),
            forall|j: int| 0 <= j < i ==> !offers_key(#[trigger] candidates@[j], kid@),
        decreases candidates@.len() - i,
    {
        let found = match &candidates[i].key_id {
            Some(id) => str_eq(id.as_str(), kid),
            None => false,
        };
        if found {
            return Some(i);
        }
        i = i + 1;
    }
    None
}

/// What checking a token takes next.
pub enum TokenCheck {
    /// Fetch the key set at `url`, then finish with `finish_with_key_set`
    /// for the key whose id is `key_id`.
    FetchKeySet { url: String, key_id: String },
    /// The check is over: the token's claims, or why it was refused, and
    /// what the token was handed to the decoder with, if it was.
    Done(Result<Value, AuthError>, Ghost<Option<DecodeRequest>>),
}

/// Starts checking `token` as the configuration says. With a key set URL,
/// the token's header must name a key, which is then to be fetched; else
/// the configured key checks the token (a shared secret for HMAC
/// algorithms, an RSA public key otherwise) under the configured validation;
/// with neither, the configuration is missing. A token the key refuses is
/// invalid.
pub fn begin_token_check(config: &Config, token: &str) -> (r: TokenCheck)
    ensures
        config.jwt_jwks_url@.len() > 0 ==> (match spec_header_key_id(token@) {
            Some(Some(k)) => r matches TokenCheck::FetchKeySet { url, key_id }
                && url@ == config.jwt_jwks_url@ && key_id@ == k,
            _ => (r matches TokenCheck::Done(res, req) && res == Err::<Value, AuthError>(AuthError::InvalidToken)
                && req@ is None),
        }),
        config.jwt_jwks_url@.len() == 0 && config.jwt_public_key@.len() == 0
            ==> (r matches TokenCheck::Done(res, req) && res == Err::<Value, AuthError>(AuthError::ConfigMissing)
                && req@ is None),
        config.jwt_jwks_url@.len() == 0 && config.jwt_public_key@.len() > 0 ==> (r matches TokenCheck::Done(res, req)
            && (res matches Err(e) ==> e == AuthError::InvalidToken)
            && (if !spec_algorithm(config.jwt_alg@).spec_is_hmac()
                && !spec_rsa_pem_accepted(vstd::utf8::encode_utf8(config.jwt_public_key@)) {
                res == Err::<Value, AuthError>(AuthError::InvalidToken) && req@ is None
            } else {
                req@ == Some(DecodeRequest {
                    token: token@,
                    key: if spec_algorithm(config.jwt_alg@).spec_is_hmac() {
                        KeyOrigin::Secret(vstd::utf8::encode_utf8(config.jwt_public_key@))
                    } else {
                        KeyOrigin::RsaPem(vstd::utf8::encode_utf8(config.jwt_public_key@))
                    },
                    settings: configured_settings(*config),
                })
            })),
{
    match key_source(config) {
        JwtKeySource::Jwks { url } => {
            match header_key_id(token) {
                Ok(Some(key_id)) => TokenCheck::FetchKeySet { url, key_id },
                _ => TokenCheck::Done(Err(AuthError::InvalidToken), Ghost(None)),
            }
        },
        JwtKeySource::Configured { secret } => {
            let validation = configured_validation(config);
            let key_bytes = config.jwt_public_key.as_str().as_bytes();
            let key = if secret {
                decoding_key_from_secret(key_bytes)
            } else {
                match decoding_key_from_rsa_pem(key_bytes) {
                    Ok(key) => key,
                    Err(_) => return TokenCheck::Done(Err(AuthError::InvalidToken), Ghost(None)),
                }
            };
            let (result, request) = decode_token(token, &key, &validation);
            TokenCheck::Done(result, Ghost(Some(request@)))
        },
        JwtKeySource::Missing => TokenCheck::Done(Err(AuthError::ConfigMissing), Ghost(None)),
    }
}

/// Finishes checking `token` with the key set fetched for it: the first
/// entry with the key id `kid` checks the token under the configured
/// validation; a token whose key is not in the set, or that the key
/// refuses, is invalid. The second result says what the token was handed to
/// the decoder with, if it was.
pub fn finish_with_key_set(config: &Config, token: &str, kid: &str, candidates: Vec<JwkCandidate>)
    -> (r: (Result<Value, AuthError>, Ghost<Option<DecodeRequest>>))
    ensures
        (forall|j: int| 0 <= j < candidates@.len() ==> !offers_key(#[trigger] candidates@[j], kid@))
            ==> r.0 == Err::<Value, AuthError>(AuthError::InvalidToken) && r.1@ is None,
        r.0 matches Err(e) ==> e == AuthError::InvalidToken,
        r.0 is Ok ==> r.1@ is Some,
        r.1@ matches Some(q) ==> {
            &&& q.token == token@
            &&& q.settings == configured_settings(*config)
            &&& exists|i: int| {
                &&& 0 <= i < candidates@.len()
                &&& #[trigger] offers_key(candidates@[i], kid@)
                &&& (forall|j: int| 0 <= j < i ==> !offers_key(#[trigger] candidates@[j], kid@))
                &&& q.key == KeyOrigin::KeySetEntry(candidates@[i].jwk)
            }
        },
{
    match select_key(candidates.as_slice(), kid) {
        Some(i) => {
            let key = match decoding_key_from_jwk(&candidates[i].jwk) {
                Ok(key) => key,
                Err(_) => return (Err(AuthError::InvalidToken), Ghost(None)),
            };
            let validation = configured_validation(config);
            let (result, request) = decode_token(token, &key, &validation);
            proof { assert(offers_key(candidates@[i as int], kid@)); }
            (result, Ghost(Some(request@)))
        },
        None => (Err(AuthError::InvalidToken), Ghost(None)),
    }
}

} // verus!
