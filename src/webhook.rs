//! Request details of the webhook protocol.

use vstd::prelude::*;

verus! {

/// The protocol's versioned media type.
pub const WEBHOOK_MEDIA_TYPE: &'static str = "application/external.dns.webhook+json;version=1";

/// The plain JSON media type that stands for it.
pub const JSON_MEDIA_TYPE: &'static str = "application/json;version=1";

/// The content type to put in place of `content_type` before decoding a body: the
/// plain JSON type for the protocol's versioned type, `None` (keep it) otherwise.
pub fn normalize_content_type(content_type: &str) -> (r: Option<String>)
    ensures
        r is Some <==> content_type@ == WEBHOOK_MEDIA_TYPE@,
        r matches Some(s) ==> s@ == JSON_MEDIA_TYPE@,
{
    if String::from_str(content_type) == String::from_str(WEBHOOK_MEDIA_TYPE) {
        Some(String::from_str(JSON_MEDIA_TYPE))
    } else {
        None
    }
}

} // verus!
