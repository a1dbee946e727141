//! The internal HTTP API's rules for publish requests.

use vstd::prelude::*;
use crate::text::str_eq;

verus! {

/// Why a publish request is refused.
#[derive(Clone, Copy, Debug, PartialEq, Eq, Structural)]
pub enum PublishRejection {
    InvalidApiKey,
    MissingSubjects,
}

impl PublishRejection {
    pub open spec fn spec_code(self) -> Seq<char> {
        match self {
            PublishRejection::InvalidApiKey => "invalid_api_key"@,
            PublishRejection::MissingSubjects => "missing_subjects"@,
        }
    }

    /// The error code sent back.
    pub fn code(&self) -> (r: &'static str)
        ensures
            r@ == self.spec_code(),
    {
        match self {
            PublishRejection::InvalidApiKey => "invalid_api_key",
            PublishRejection::MissingSubjects => "missing_subjects",
        }
    }
}

/// The API key a publish request presents: the one in its body, else the
/// one in its header, else none (empty).
pub open spec fn presented_key(body_key: Option<Seq<char>>, header_key: Option<Seq<char>>) -> Seq<char> {
    match body_key {
        Some(k) => k,
        None => match header_key {
            Some(k) => k,
            None => Seq::empty(),
        },
    }
}

/// Checks a publish request: when an API key is configured, the request must
/// present it; the request must name subjects.
pub fn check_publish_request(
    configured_key: &str,
    body_key: Option<&str>,
    header_key: Option<&str>,
    subject_count: usize,
) -> (r: Result<(), PublishRejection>)
    ensures
        ({
            let bad_key = configured_key@.len() > 0 && presented_key(
                match body_key { Some(k) => Some(k@), None => None },
                match header_key { Some(k) => Some(k@), None => None },
            ) != configured_key@;
            match r {
                Ok(()) => !bad_key && subject_count > 0,
                Err(e) => if bad_key { e == PublishRejection::InvalidApiKey } else {
                    e == PublishRejection::MissingSubjects && subject_count == 0
                },
            }
        }),
{
    if !configured_key.is_empty() {
        proof {
            reveal_strlit("");
            assert(""@ =~= Seq::<char>::empty());
        }
        let provided: &str = match body_key {
            Some(k) => k,
            None => match header_key {
                Some(k) => k,
                None => "",
            },
        };
        if !str_eq(provided, configured_key) {
            return Err(PublishRejection::InvalidApiKey);
        }
    }
    if subject_count == 0 {
        return Err(PublishRejection::MissingSubjects);
    }
    Ok(())
}

} // verus!
