//! The gateway's configuration and how it is read from environment values.

use vstd::prelude::*;
use crate::text::{lowercase_text, spec_lowercase, str_eq};

verus! {

/// The gateway's configuration.
#[derive(Clone, Debug)]
pub struct Config {
    pub transport: String,
    pub jwt_alg: String,
    pub jwt_user_id_claim: String,
    pub jwt_public_key: String,
    pub jwt_public_key_file: String,
    pub jwt_jwks_url: String,
    pub jwt_issuer: String,
    pub jwt_audience: String,
    pub jwt_leeway: i64,
    pub gateway_api_key: String,
    pub auth_backend_base_url: String,
    pub auth_request_timeout_ms: u64,
    pub redis_dsn: String,
    pub redis_stream: String,
    pub redis_inbox_stream: String,
    pub redis_events_stream: String,
    pub max_connections_per_user: Option<usize>,
    pub stale_connection_timeout_seconds: i64,
    pub stale_prune_interval_seconds: u64,
    pub webtransport_port: u16,
    pub websocket_port: u16,
    pub http_api_port: u16,
    pub cert_pemfile: String,
    pub key_pemfile: String,
}

/// An ASCII decimal digit.
pub open spec fn is_digit(c: char) -> bool {
    48 <= (c as u32) <= 57
}

/// The value of a decimal digit.
pub open spec fn digit_value(c: char) -> int {
    (c as u32) - 48
}

/// Every char of the text is a decimal digit.
pub open spec fn all_digits(s: Seq<char>) -> bool {
    forall|i: int| 0 <= i < s.len() ==> is_digit(#[trigger] s[i])
}

/// The value of a run of decimal digits, most significant first.
pub open spec fn digits_value(s: Seq<char>) -> int
    decreases s.len(),
{
    if s.len() == 0 { 0 } else { digits_value(s.drop_last()) * 10 + digit_value(s.last()) }
}

/// A text as an integer literal: an optional `+` (or `-`, for a signed
/// type) followed by one or more decimal digits; whether it is negative and
/// its digits.
pub open spec fn sign_and_digits(s: Seq<char>, signed: bool) -> Option<(bool, Seq<char>)> {
    let (neg, d) = if s.len() > 0 && s[0] == '+' {
        (false, s.drop_first())
    } else if signed && s.len() > 0 && s[0] == '-' {
        (true, s.drop_first())
    } else {
        (false, s)
    };
    if d.len() > 0 && all_digits(d) { Some((neg, d)) } else { None }
}

/// What `str::parse::<i64>` gives for a text: its value when it is an
/// integer literal (see `sign_and_digits`) in range.
pub open spec fn spec_parse_i64(s: Seq<char>) -> Option<i64> {
    match sign_and_digits(s, true) {
        Some((neg, d)) => {
            let v = if neg { -digits_value(d) } else { digits_value(d) };
            if i64::MIN <= v <= i64::MAX { Some(v as i64) } else { None }
        },
        None => None,
    }
}

/// What `str::parse::<u64>` gives for a text.
pub open spec fn spec_parse_u64(s: Seq<char>) -> Option<u64> {
    match sign_and_digits(s, false) {
        Some((_, d)) => if digits_value(d) <= u64::MAX { Some(digits_value(d) as u64) } else { None },
        None => None,
    }
}

/// What `str::parse::<u16>` gives for a text.
pub open spec fn spec_parse_u16(s: Seq<char>) -> Option<u16> {
    match sign_and_digits(s, false) {
        Some((_, d)) => if digits_value(d) <= u16::MAX { Some(digits_value(d) as u16) } else { None },
        None => None,
    }
}

/// What `str::parse::<usize>` gives for a text.
pub open spec fn spec_parse_usize(s: Seq<char>) -> Option<usize> {
    match sign_and_digits(s, false) {
        Some((_, d)) => if digits_value(d) <= usize::MAX { Some(digits_value(d) as usize) } else { None },
        None => None,
    }
}

proof fn lemma_digits_value_nonneg(s: Seq<char>)
    requires
        all_digits(s),
    ensures
        digits_value(s) >= 0,
    decreases s.len(),
{
    if s.len() > 0 {
        assert(all_digits(s.drop_last())) by {
            assert forall|i: int| 0 <= i < s.drop_last().len() implies is_digit(#[trigger] s.drop_last()[i]) by {
                assert(s.drop_last()[i] == s[i]);
            }
        }
        lemma_digits_value_nonneg(s.drop_last());
        assert(is_digit(s[s.len() - 1]));
    }
}

/// The digits of a prefix are worth no more than the whole run.
proof fn lemma_digits_value_prefix(s: Seq<char>, j: int)
    requires
        all_digits(s),
        0 <= j <= s.len(),
    ensures
        digits_value(s.take(j)) <= digits_value(s),
    decreases s.len(),
{
    if j < s.len() {
        let t = s.drop_last();
        assert(all_digits(t)) by {
            assert forall|i: int| 0 <= i < t.len() implies is_digit(#[trigger] t[i]) by {
                assert(t[i] == s[i]);
            }
        }
        lemma_digits_value_prefix(t, j);
        assert(t.take(j) =~= s.take(j));
        lemma_digits_value_nonneg(t);
        assert(is_digit(s[s.len() - 1]));
    } else {
        assert(s.take(j) =~= s);
    }
}

/// Reads a text as an integer literal (see `sign_and_digits`): whether it is
/// negative and its magnitude, when the magnitude is at most `pos_max`
/// (`neg_max` for a negative one).
fn parse_decimal(s: &str, signed: bool, pos_max: u64, neg_max: u64) -> (r: Option<(bool, u64)>)
    ensures
        r == (match sign_and_digits(s@, signed) {
            Some((neg, d)) => if digits_value(d) <= (if neg { neg_max } else { pos_max }) {
                Some((neg, digits_value(d) as u64))
            } else {
                None
            },
            None => None,
        }),
{
    let n = s.unicode_len();
    let mut start: usize = 0;
    let mut neg = false;
    if n > 0 {
        let c = s.get_char(0);
        if c == '+' {
            start = 1;
        } else if signed && c == '-' {
            start = 1;
            neg = true;
        }
    }
    let ghost d = s@.subrange(start as int, n as int);
    proof {
        if start == 1 { assert(d =~= s@.drop_first()); } else { assert(d =~= s@); }
    }
    if start >= n {
        return None;
    }
    let bound: u64 = if neg { neg_max } else { pos_max };
    let mut acc: u64 = 0;
    let mut i: usize = start;
    proof { assert(d.take(0) =~= Seq::<char>::empty()); }
    while i < n
        invariant
            start <= i <= n,
            n == s@.len(),
            d == s@.subrange(start as int, n as int),
            acc as int == digits_value(d.take(i - start)),
            acc <= bound,
            all_digits(d.take(i - start)),
            d.len() > 0,
            bound == (if neg { neg_max } else { pos_max }),
            sign_and_digits(s@, signed) == (if all_digits(d) { Some((neg, d)) } else { None::<(bool, Seq<char>)> }),
        decreases n - i,
    {
        let c = s.get_char(i);
        let k = i - start;
        proof {
            assert(d[k as int] == c);
            assert(d.take(k + 1).drop_last() =~= d.take(k as int));
            assert(d.take(k + 1).last() == c);
        }
        if !('0' <= c && c <= '9') {
            proof {
                assert(!is_digit(d[k as int]));
                assert(!all_digits(d));
            }
            return None;
        }
        let dv: u64 = (c as u32 - 48) as u64;
        proof {
            assert(all_digits(d.take(k + 1))) by {
                assert forall|x: int| 0 <= x < d.take(k + 1).len() implies is_digit(#[trigger] d.take(k + 1)[x]) by {
                    if x < k {
                        assert(d.take(k + 1)[x] == d.take(k as int)[x]);
                    }
                }
            }
        }
        if dv > bound || acc > (bound - dv) / 10 {
            proof {
                assert(acc * 10 + dv > bound) by (nonlinear_arith)
                    requires dv > bound || acc > (bound - dv) / 10, acc >= 0;
                assert(digits_value(d.take(k + 1)) == acc * 10 + dv);
                if all_digits(d) {
                    lemma_digits_value_prefix(d, k + 1);
                }
            }
            return None;
        }
        proof {
            assert(acc * 10 + dv <= bound) by (nonlinear_arith)
                requires acc <= (bound - dv) / 10, dv <= bound;
        }
        acc = acc * 10 + dv;
        i = i + 1;
    }
    proof {
        assert(d.take(n - start) =~= d);
        lemma_digits_value_nonneg(d);
    }
    Some((neg, acc))
}

/// Parses a text as an `i64` as `str::parse` does (see `spec_parse_i64`).
fn parse_i64_text(s: &str) -> (r: Option<i64>)
    ensures
        r == spec_parse_i64(s@),
{
    proof {
        match sign_and_digits(s@, true) {
            Some((_, d)) => { lemma_digits_value_nonneg(d); },
            None => {},
        }
    }
    match parse_decimal(s, true, 9_223_372_036_854_775_807u64, 9_223_372_036_854_775_808u64) {
        Some((true, m)) => if m == 9_223_372_036_854_775_808u64 { Some(-9_223_372_036_854_775_808i64) } else { Some(-(m as i64)) },
        Some((false, m)) => Some(m as i64),
        None => None,
    }
}

/// Parses a text as a `u64` as `str::parse` does (see `spec_parse_u64`).
fn parse_u64_text(s: &str) -> (r: Option<u64>)
    ensures
        r == spec_parse_u64(s@),
{
    proof {
        match sign_and_digits(s@, false) {
            Some((_, d)) => { lemma_digits_value_nonneg(d); },
            None => {},
        }
    }
    match parse_decimal(s, false, 18_446_744_073_709_551_615u64, 0) {
        Some((_, m)) => Some(m),
        None => None,
    }
}

/// Parses a text as a `u16` as `str::parse` does (see `spec_parse_u16`).
fn parse_u16_text(s: &str) -> (r: Option<u16>)
    ensures
        r == spec_parse_u16(s@),
{
    proof {
        match sign_and_digits(s@, false) {
            Some((_, d)) => { lemma_digits_value_nonneg(d); },
            None => {},
        }
    }
    match parse_decimal(s, false, 65535u64, 0) {
        Some((_, m)) => Some(m as u16),
        None => None,
    }
}

/// Parses a text as a `usize` as `str::parse` does (see `spec_parse_usize`).
fn parse_usize_text(s: &str) -> (r: Option<usize>)
    ensures
        r == spec_parse_usize(s@),
{
    proof {
        match sign_and_digits(s@, false) {
            Some((_, d)) => { lemma_digits_value_nonneg(d); },
            None => {},
        }
    }
    match parse_decimal(s, false, usize::MAX as u64, 0) {
        Some((_, m)) => Some(m as usize),
        None => None,
    }
}

/// The value of the first variable named `key`.
pub open spec fn env_value(vars: Seq<(String, String)>, key: Seq<char>) -> Option<Seq<char>>
    decreases vars.len(),
{
    if vars.len() == 0 {
        None
    } else if vars[0].0@ == key {
        Some(vars[0].1@)
    } else {
        env_value(vars.drop_first(), key)
    }
}

/// A text variable, or its default.
pub open spec fn env_text(vars: Seq<(String, String)>, key: Seq<char>, default: Seq<char>) -> Seq<char> {
    match env_value(vars, key) {
        Some(v) => v,
        None => default,
    }
}

/// An `i64` variable, or its default when absent or not a number.
pub open spec fn env_i64(vars: Seq<(String, String)>, key: Seq<char>, default: i64) -> i64 {
    match env_value(vars, key) {
        Some(v) => match spec_parse_i64(v) { Some(n) => n, None => default },
        None => default,
    }
}

/// A `u64` variable, or its default when absent or not a number.
pub open spec fn env_u64(vars: Seq<(String, String)>, key: Seq<char>, default: u64) -> u64 {
    match env_value(vars, key) {
        Some(v) => match spec_parse_u64(v) { Some(n) => n, None => default },
        None => default,
    }
}

/// A `u16` variable, or its default when absent or not a number.
pub open spec fn env_u16(vars: Seq<(String, String)>, key: Seq<char>, default: u16) -> u16 {
    match env_value(vars, key) {
        Some(v) => match spec_parse_u16(v) { Some(n) => n, None => default },
        None => default,
    }
}

/// A `usize` variable, when present and a number.
pub open spec fn env_usize(vars: Seq<(String, String)>, key: Seq<char>) -> Option<usize> {
    match env_value(vars, key) {
        Some(v) => spec_parse_usize(v),
        None => None,
    }
}

fn lookup<'a>(vars: &'a Vec<(String, String)>, key: &str) -> (r: Option<&'a String>)
    ensures
        match r {
            Some(v) => env_value(vars@, key@) == Some(v@),
            None => env_value(vars@, key@) is None,
        },
{
    let mut i: usize = 0;
    proof { assert(vars@.skip(0) =~= vars@); }
    while i < vars.len()
        invariant
            i <= vars@.len(),
            env_value(vars@, key@) == env_value(vars@.skip(i as int), key@),
        decreases vars@.len() - i,
    {
        proof {
            assert(vars@.skip(i as int)[0] == vars@[i as int]);
            assert(vars@.skip(i as int).drop_first() =~= vars@.skip(i + 1));
        }
        if str_eq(vars[i].0.as_str(), key) {
            return Some(&vars[i].1);
        }
        i = i + 1;
    }
    None
}

fn read_text(vars: &Vec<(String, String)>, key: &str, default: &str) -> (r: String)
    ensures
        r@ == env_text(vars@, key@, default@),
{
    match lookup(vars, key) {
        Some(v) => v.clone(),
        None => String::from_str(default),
    }
}

fn read_i64(vars: &Vec<(String, String)>, key: &str, default: i64) -> (r: i64)
    ensures
        r == env_i64(vars@, key@, default),
{
    match lookup(vars, key) {
        Some(v) => match parse_i64_text(v.as_str()) { Some(n) => n, None => default },
        None => default,
    }
}

fn read_u64(vars: &Vec<(String, String)>, key: &str, default: u64) -> (r: u64)
    ensures
        r == env_u64(vars@, key@, default),
{
    match lookup(vars, key) {
        Some(v) => match parse_u64_text(v.as_str()) { Some(n) => n, None => default },
        None => default,
    }
}

fn read_u16(vars: &Vec<(String, String)>, key: &str, default: u16) -> (r: u16)
    ensures
        r == env_u16(vars@, key@, default),
{
    match lookup(vars, key) {
        Some(v) => match parse_u16_text(v.as_str()) { Some(n) => n, None => default },
        None => default,
    }
}

fn read_usize(vars: &Vec<(String, String)>, key: &str) -> (r: Option<usize>)
    ensures
        r == env_usize(vars@, key@),
{
    match lookup(vars, key) {
        Some(v) => parse_usize_text(v.as_str()),
        None => None,
    }
}

/// The transport a configured name selects: `websocket` for `websocket` or
/// `ws` (any case), `webtransport` otherwise.
pub open spec fn spec_transport(name: Seq<char>) -> Seq<char> {
    let n = spec_lowercase(name);
    if n == "websocket"@ || n == "ws"@ { "websocket"@ } else { "webtransport"@ }
}

/// The key file to read for the JWT public key: the configured file, when no
/// key is configured directly.
pub open spec fn spec_key_file(vars: Seq<(String, String)>) -> Option<Seq<char>> {
    let key = env_text(vars, "JWT_PUBLIC_KEY"@, Seq::empty());
    let file = env_text(vars, "JWT_PUBLIC_KEY_FILE"@, Seq::empty());
    if key.len() == 0 && file.len() > 0 { Some(file) } else { None }
}

fn empty_text() -> (r: &'static str)
    ensures
        r@ == Seq::<char>::empty(),
{
    proof {
        reveal_strlit("");
        assert(""@ =~= Seq::<char>::empty());
    }
    ""
}

/// The key file to read for the JWT public key (see `spec_key_file`).
pub fn public_key_file_to_read(vars: &Vec<(String, String)>) -> (r: Option<String>)
    ensures
        match r {
            Some(f) => spec_key_file(vars@) == Some(f@),
            None => spec_key_file(vars@) is None,
        },
{
    let key = read_text(vars, "JWT_PUBLIC_KEY", empty_text());
    let file = read_text(vars, "JWT_PUBLIC_KEY_FILE", empty_text());
    if key.as_str().is_empty() && !file.as_str().is_empty() { Some(file) } else { None }
}

impl Config {
    /// The configuration that environment variables `vars` give (name and
    /// value of each variable that is set), with `key_file` the contents of
    /// the JWT public key file when it was read (see `spec_key_file`).
    pub fn from_vars(vars: &Vec<(String, String)>, key_file: Option<String>) -> (c: Config)
        ensures
            c.transport@ == spec_transport(env_text(vars@, "GATEWAY_TRANSPORT"@, "webtransport"@)),
            c.jwt_alg@ == env_text(vars@, "JWT_ALG"@, "RS256"@),
            c.jwt_user_id_claim@ == env_text(vars@, "JWT_USER_ID_CLAIM"@, "user_id"@),
            c.jwt_public_key_file@ == env_text(vars@, "JWT_PUBLIC_KEY_FILE"@, Seq::empty()),
            c.jwt_public_key@ == (match key_file {
                Some(k) => if spec_key_file(vars@) is Some { k@ } else { env_text(vars@, "JWT_PUBLIC_KEY"@, Seq::empty()) },
                None => env_text(vars@, "JWT_PUBLIC_KEY"@, Seq::empty()),
            }),
            c.jwt_jwks_url@ == env_text(vars@, "JWT_JWKS_URL"@, Seq::empty()),
            c.jwt_issuer@ == env_text(vars@, "JWT_ISSUER"@, Seq::empty()),
            c.jwt_audience@ == env_text(vars@, "JWT_AUDIENCE"@, Seq::empty()),
            c.jwt_leeway == env_i64(vars@, "JWT_LEEWAY"@, 0),
            c.gateway_api_key@ == env_text(vars@, "GATEWAY_API_KEY"@, Seq::empty()),
            c.auth_backend_base_url@ == env_text(vars@, "AUTH_BACKEND_BASE_URL"@, Seq::empty()),
            c.auth_request_timeout_ms == env_u64(vars@, "AUTH_REQUEST_TIMEOUT_MS"@, 5000),
            c.redis_dsn@ == env_text(vars@, "REDIS_DSN"@, Seq::empty()),
            c.redis_stream@ == env_text(vars@, "REDIS_STREAM"@, "ws.outbox"@),
            c.redis_inbox_stream@ == env_text(vars@, "REDIS_INBOX_STREAM"@, "ws.inbox"@),
            c.redis_events_stream@ == env_text(vars@, "REDIS_EVENTS_STREAM"@, "ws.events"@),
            c.max_connections_per_user == (match env_usize(vars@, "MAX_CONNECTIONS_PER_USER"@) {
                Some(n) => if n > 0 { Some(n) } else { None },
                None => None,
            }),
            c.stale_connection_timeout_seconds == (if env_i64(vars@, "CONNECTION_STALE_SECONDS"@, 120) > 0 {
                env_i64(vars@, "CONNECTION_STALE_SECONDS"@, 120) } else { 0 }),
            c.stale_prune_interval_seconds == (if env_u64(vars@, "CONNECTION_PRUNE_INTERVAL_SECONDS"@, 15) > 1 {
                env_u64(vars@, "CONNECTION_PRUNE_INTERVAL_SECONDS"@, 15) } else { 1 }),
            c.webtransport_port == env_u16(vars@, "WEBTRANSPORT_PORT"@, 4433),
            c.websocket_port == env_u16(vars@, "WEBSOCKET_PORT"@, 8081),
            c.http_api_port == env_u16(vars@, "HTTP_API_PORT"@, 8080),
            c.cert_pemfile@ == env_text(vars@, "CERT_PEMFILE"@, "/run/certs/dev_cert.pem"@),
            c.key_pemfile@ == env_text(vars@, "KEY_PEMFILE"@, "/run/certs/dev_key.pem"@),
    {
        let transport_name = lowercase_text(read_text(vars, "GATEWAY_TRANSPORT", "webtransport").as_str());
        let transport = if str_eq(transport_name.as_str(), "websocket") || str_eq(transport_name.as_str(), "ws") {
            String::from_str("websocket")
        } else {
            String::from_str("webtransport")
        };
        let jwt_public_key_file = read_text(vars, "JWT_PUBLIC_KEY_FILE", empty_text());
        let direct_key = read_text(vars, "JWT_PUBLIC_KEY", empty_text());
        let reads_file = public_key_file_to_read(vars).is_some();
        let jwt_public_key = match key_file {
            Some(contents) => if reads_file { contents } else { direct_key },
            None => direct_key,
        };
        let max_connections_per_user = match read_usize(vars, "MAX_CONNECTIONS_PER_USER") {
            Some(n) => if n > 0 { Some(n) } else { None },
            None => None,
        };
        let stale = read_i64(vars, "CONNECTION_STALE_SECONDS", 120);
        let prune = read_u64(vars, "CONNECTION_PRUNE_INTERVAL_SECONDS", 15);
        Config {
            transport,
            jwt_alg: read_text(vars, "JWT_ALG", "RS256"),
            jwt_user_id_claim: read_text(vars, "JWT_USER_ID_CLAIM", "user_id"),
            jwt_public_key,
            jwt_public_key_file,
            jwt_jwks_url: read_text(vars, "JWT_JWKS_URL", empty_text()),
            jwt_issuer: read_text(vars, "JWT_ISSUER", empty_text()),
            jwt_audience: read_text(vars, "JWT_AUDIENCE", empty_text()),
            jwt_leeway: read_i64(vars, "JWT_LEEWAY", 0),
            gateway_api_key: read_text(vars, "GATEWAY_API_KEY", empty_text()),
            auth_backend_base_url: read_text(vars, "AUTH_BACKEND_BASE_URL", empty_text()),
            auth_request_timeout_ms: read_u64(vars, "AUTH_REQUEST_TIMEOUT_MS", 5000),
            redis_dsn: read_text(vars, "REDIS_DSN", empty_text()),
            redis_stream: read_text(vars, "REDIS_STREAM", "ws.outbox"),
            redis_inbox_stream: read_text(vars, "REDIS_INBOX_STREAM", "ws.inbox"),
            redis_events_stream: read_text(vars, "REDIS_EVENTS_STREAM", "ws.events"),
            max_connections_per_user,
            stale_connection_timeout_seconds: if stale > 0 { stale } else { 0 },
            stale_prune_interval_seconds: if prune > 1 { prune } else { 1 },
            webtransport_port: read_u16(vars, "WEBTRANSPORT_PORT", 4433),
            websocket_port: read_u16(vars, "WEBSOCKET_PORT", 8081),
            http_api_port: read_u16(vars, "HTTP_API_PORT", 8080),
            cert_pemfile: read_text(vars, "CERT_PEMFILE", "/run/certs/dev_cert.pem"),
            key_pemfile: read_text(vars, "KEY_PEMFILE", "/run/certs/dev_key.pem"),
        }
    }
}

} // verus!
