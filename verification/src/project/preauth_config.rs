//! Preauth configuration: the backend HTTP route of each preauth command and
//! the shape of dropbox guest user ids.

use vstd::prelude::*;
use crate::text::{append_decimal, decimal_text, str_eq};

verus! {

/// The backend path that serves a preauth command, if it has one.
pub open spec fn spec_http_path(command_name: Seq<char>) -> Option<Seq<char>> {
    if command_name == "auth_login_request"@ {
        Some("/api/login_check"@)
    } else if command_name == "auth_register_request"@ {
        Some("/api/register"@)
    } else if command_name == "auth_identity_request"@ {
        Some("/api/identity/login"@)
    } else {
        None
    }
}

/// The backend HTTP path configured for a preauth command.
pub fn resolve_http_path(command_name: &str) -> (r: Option<&'static str>)
    ensures
        match r {
            Some(path) => spec_http_path(command_name@) == Some(path@),
            None => spec_http_path(command_name@) is None,
        },
{
    if str_eq(command_name, "auth_login_request") {
        Some("/api/login_check")
    } else if str_eq(command_name, "auth_register_request") {
        Some("/api/register")
    } else if str_eq(command_name, "auth_identity_request") {
        Some("/api/identity/login")
    } else {
        None
    }
}

/// The guest user id of a public dropbox session: `public-dropbox:{slug}:{micros}`.
pub open spec fn spec_dropbox_guest_user_id(slug: Seq<char>, timestamp_micros: int) -> Seq<char> {
    "public-dropbox:"@ + slug + ":"@ + decimal_text(timestamp_micros)
}

/// Composes the guest user id of a public dropbox session.
pub fn compose_dropbox_guest_user_id(slug: &str, timestamp_micros: i64) -> (r: String)
    ensures
        r@ == spec_dropbox_guest_user_id(slug@, timestamp_micros as int),
{
    let mut out = String::from_str("public-dropbox:");
    out.append(slug);
    out.append(":");
    append_decimal(&mut out, timestamp_micros);
    out
}

} // verus!
